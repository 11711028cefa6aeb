use lean_string::bench::{ascii, differ_at_last, samples, STATIC_STR_16, STATIC_STR_40};

#[test]
fn ascii_has_printable_bytes_of_given_length() {
    for n in [0usize, 1, 7, 8, 9, 15, 16, 17, 24, 25, 256] {
        let s = ascii(n);
        assert_eq!(s.len(), n);
        assert!(s.bytes().all(|b| (b'!'..=b'~').contains(&b)));
    }
}

#[test]
fn ascii_matches_xorshift_stream() {
    let n = 20usize;
    let mut state: u64 = 0x2545_F491_4F6C_DD1D ^ (n as u64).wrapping_mul(0x9E37_79B9_7F4A_7C15);
    if state == 0 {
        state = 1;
    }
    let mut expected = String::new();
    while expected.len() < n {
        state ^= state << 13;
        state ^= state >> 7;
        state ^= state << 17;
        for byte in state.to_le_bytes() {
            if expected.len() == n {
                break;
            }
            expected.push((b'!' + byte % 94) as char);
        }
    }
    assert_eq!(ascii(n), expected);
    assert_eq!(ascii(n), ascii(n));
    assert_ne!(ascii(16), ascii(17)[..16]);
}

#[test]
fn differ_at_last_changes_only_last() {
    assert_eq!(differ_at_last(""), "");
    assert_eq!(differ_at_last("abc"), "abd");
    assert_eq!(differ_at_last("xy~"), "xy!");
    assert_eq!(differ_at_last("a\u{7f}"), "a\u{80}");
    let s = ascii(40);
    let d = differ_at_last(&s);
    assert_eq!(d.len(), 40);
    assert_eq!(&d[..39], &s[..39]);
    assert_ne!(d, s);
}

#[test]
fn samples_cover_inline_limits() {
    let lens: Vec<usize> = samples().iter().map(|s| s.len()).collect();
    assert_eq!(lens, vec![0, 1, 15, 16, 17, 24, 25, 256]);
    assert_eq!(STATIC_STR_16.len(), 16);
    assert_eq!(STATIC_STR_40.len(), 40);
}
