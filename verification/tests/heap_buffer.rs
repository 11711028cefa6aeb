use lean_string::repr::heap_buffer::internal::{max_len, Capacity, TextLen, Width};
use lean_string::repr::heap_buffer::{
    amortized_growth, ExactHeader, GrowableHeader, HeapBuffer,
};
use lean_string::repr::last_byte::HEAP_MARKER;
use lean_string::MAX_INLINE_SIZE;

// The length word of a 32-bit target, where a length above `MAX_LEN` is stored on the heap.
#[test]
fn heap_stored_length_preserves_repr_tag() {
    let max_len = Width::W32.max_len();
    let len = TextLen::new_in(Width::W32, max_len + 1).unwrap();

    assert!(len.is_heap());
    assert_eq!(len.tag_byte(), HEAP_MARKER);
}

#[test]
fn length_word_of_64_bit_target_refuses_too_long_lengths() {
    let max_len = Width::W64.max_len();
    assert_eq!(max_len, (1u64 << 56) - 1);
    assert!(TextLen::new_in(Width::W64, max_len + 1).is_err());

    let len = TextLen::new_in(Width::W64, max_len).unwrap();
    assert!(!len.is_heap());
    assert_eq!(len.as_u64(), max_len);
    assert_eq!(len.tag_byte(), HEAP_MARKER);
}

#[test]
fn length_word_holds_its_length() {
    for width in [Width::W32, Width::W64] {
        for size in [0u64, 1, 17, 255, 256, 0x00ff_fffe] {
            let len = TextLen::new_in(width, size).unwrap();
            assert!(!len.is_heap());
            assert_eq!(len.as_u64(), size);
            assert_eq!(len.tag_byte(), HEAP_MARKER);
        }
    }
}

#[test]
fn native_length_word_and_capacity() {
    let max = max_len();
    assert_eq!(TextLen::new(17).unwrap().as_u64(), 17);
    assert_eq!(Capacity::new(100).unwrap().as_usize(), 100);
    if usize::BITS == 64 {
        assert!(TextLen::new(max + 1).is_err());
        assert!(Capacity::new(max + 1).is_err());
        assert!(Capacity::new(max).is_ok());
    }
}

#[test]
fn amortized_growth_is_one_and_a_half() {
    assert_eq!(amortized_growth(100, 1), 150);
    assert_eq!(amortized_growth(100, 60), 160);
    assert_eq!(amortized_growth(0, 5), 5);
    assert_eq!(amortized_growth(usize::MAX, 1), usize::MAX);
    assert_eq!(amortized_growth(usize::MAX / 2, 0), usize::MAX / 2);
}

#[test]
fn exact_layout_omits_capacity() {
    let word = size_of::<usize>();
    assert_eq!(HeapBuffer::<ExactHeader>::header_offset(), word);
    assert_eq!(HeapBuffer::<GrowableHeader>::header_offset(), 2 * word);

    let len = MAX_INLINE_SIZE + 1;
    let capacity = Capacity::new(len).unwrap();
    assert_eq!(HeapBuffer::<ExactHeader>::layout_for(capacity).unwrap(), word + len);
    assert_eq!(HeapBuffer::<GrowableHeader>::layout_for(capacity).unwrap(), 2 * word + len);
}

#[test]
fn layout_refuses_sizes_beyond_isize_max() {
    let capacity = Capacity::new(isize::MAX as usize).unwrap_or(Capacity::new(0).unwrap());
    if capacity.as_usize() > 0 {
        assert!(HeapBuffer::<GrowableHeader>::layout_for(capacity).is_err());
    }
}

#[test]
fn exact_new_allocates_expected_content() {
    let text = "a text that is longer than the inline buffer limit";
    let exact = HeapBuffer::<ExactHeader>::new(text).unwrap();

    assert_eq!(exact.as_str(), text);
    assert_eq!(exact.len(), text.len());
    assert!(exact.is_unique());

    exact.release();
}

#[test]
fn conversions_reuse_allocation_and_preserve_content() {
    let text = "short multibyte text: é日";
    let growable = HeapBuffer::<GrowableHeader>::with_exact_capacity(text.as_bytes(), 128).unwrap();
    assert_eq!(growable.capacity(), 128);

    let exact = match growable.into_exact() {
        Ok(exact) => exact,
        Err((_, err)) => panic!("into_exact failed: {err:?}"),
    };
    assert_eq!(exact.as_str(), text);
    assert!(exact.is_unique());

    let growable = match exact.into_growable() {
        Ok(growable) => growable,
        Err((_, err)) => panic!("into_growable failed: {err:?}"),
    };
    assert_eq!(growable.as_str(), text);
    assert_eq!(growable.capacity(), text.len());

    growable.release();
}
