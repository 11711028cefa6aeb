use lean_string::case::{
    changes_ascii, map_ascii, map_ascii_in_place, map_while_ascii, split_at_change, CaseMapping,
};

#[test]
fn ascii_byte_mapping() {
    assert!(CaseMapping::ToLower.changes_ascii(b'A'));
    assert!(!CaseMapping::ToLower.changes_ascii(b'a'));
    assert!(CaseMapping::ToUpper.changes_ascii(b'z'));
    assert!(!CaseMapping::ToUpper.changes_ascii(b'@'));
    assert_eq!(CaseMapping::ToLower.map_ascii(b'Q'), b'q');
    assert_eq!(CaseMapping::ToUpper.map_ascii(b'q'), b'Q');
    assert_eq!(CaseMapping::ToUpper.map_ascii(b'['), b'[');
    assert_eq!(CaseMapping::ToLower.map_ascii(0xC3), 0xC3);
}

#[test]
fn full_mapping_changes() {
    assert!(CaseMapping::ToLower.changes('A'));
    assert!(!CaseMapping::ToLower.changes('a'));
    assert!(CaseMapping::ToLower.changes('É'));
    assert!(CaseMapping::ToUpper.changes('ß'));
    assert!(CaseMapping::ToLower.changes('\u{212A}'));
    assert!(!CaseMapping::ToUpper.changes('1'));
    assert!(!CaseMapping::ToUpper.changes('日'));
}

#[test]
fn changes_ascii_in_long_text() {
    let lower = "all lowercase text that spans more than one chunk of bytes";
    assert!(!changes_ascii(lower.as_bytes(), CaseMapping::ToLower));
    assert!(changes_ascii(lower.as_bytes(), CaseMapping::ToUpper));
    let late = "all lowercase text that spans more than one chunk, then X";
    assert!(changes_ascii(late.as_bytes(), CaseMapping::ToLower));
    assert!(!changes_ascii(b"", CaseMapping::ToLower));
}

#[test]
fn map_ascii_as_far_as_both_reach() {
    let src = b"Hello World";
    let mut dst = vec![0u8; 5];
    map_ascii(src, &mut dst, CaseMapping::ToUpper);
    assert_eq!(dst, b"HELLO".to_vec());

    let mut wide = vec![b'-'; 14];
    map_ascii(src, &mut wide, CaseMapping::ToLower);
    assert_eq!(wide, b"hello world---".to_vec());
}

#[test]
fn map_ascii_in_place_all_bytes() {
    let mut bytes = "Grüße, World".as_bytes().to_vec();
    map_ascii_in_place(&mut bytes, CaseMapping::ToUpper);
    assert_eq!(bytes, "GRüßE, WORLD".as_bytes().to_vec());
}

#[test]
fn map_while_ascii_stops_at_non_ascii() {
    let src = "ASCII text across a chunk border, then é and more".as_bytes();
    let mut dst = vec![0u8; src.len()];
    let n = map_while_ascii(src, &mut dst, CaseMapping::ToLower);
    assert_eq!(n, "ASCII text across a chunk border, then ".len());
    assert_eq!(&dst[..n], b"ascii text across a chunk border, then ");
    assert!(dst[n..].iter().all(|&b| b == 0));

    let mut short = vec![0u8; 4];
    assert_eq!(map_while_ascii(b"ABCDEFG", &mut short, CaseMapping::ToLower), 4);
    assert_eq!(short, b"abcd".to_vec());

    let mut all = vec![0u8; 40];
    let text = b"0123456789ABCDEF0123456789abcdefXYZ";
    assert_eq!(map_while_ascii(text, &mut all, CaseMapping::ToLower), text.len());
    assert_eq!(&all[..text.len()], b"0123456789abcdef0123456789abcdefxyz");
}

#[test]
fn split_at_first_change() {
    assert_eq!(
        split_at_change("hello World", CaseMapping::ToLower),
        Some(("hello ", "World"))
    );
    assert_eq!(split_at_change("hello world", CaseMapping::ToLower), None);
    assert_eq!(
        split_at_change("déjà Vu", CaseMapping::ToLower),
        Some(("déjà ", "Vu"))
    );
    assert_eq!(
        split_at_change("straße", CaseMapping::ToUpper),
        Some(("", "straße"))
    );
    assert_eq!(split_at_change("123 日本", CaseMapping::ToUpper), None);
    assert_eq!(
        split_at_change("abc ÉCOLE", CaseMapping::ToLower),
        Some(("abc ", "ÉCOLE"))
    );
    assert_eq!(split_at_change("", CaseMapping::ToUpper), None);
}

fn case_inputs() -> Vec<&'static str> {
    vec![
        "",
        "already lowercase text",
        "ALREADY UPPERCASE TEXT",
        "Mixed Case, longer than one chunk of sixteen bytes",
        "déjà Vu",
        "straße und STRASSE",
        "İstanbul ıi",
        "\u{212A}elvin",
        "ΟΔΟΣ",
        "ὈΔΥΣΣΕΎΣ and more",
        "aΣ Σa ΣΣ",
        "σς Σ",
        "ﬁne ﬂow",
        "日本語のテキスト",
        "lower then É",
    ]
}

#[test]
fn to_lowercase_matches_std() {
    for input in case_inputs() {
        let s = lean_string::LeanString::try_from_str(input).unwrap();
        assert_eq!(s.try_to_lowercase().unwrap().as_str(), input.to_lowercase(), "{input}");
        let t = lean_string::LeanStr::try_from_str(input).unwrap();
        assert_eq!(t.try_to_lowercase().unwrap().as_str(), input.to_lowercase(), "{input}");
    }
}

#[test]
fn to_uppercase_matches_std() {
    for input in case_inputs() {
        let s = lean_string::LeanString::try_from_str(input).unwrap();
        assert_eq!(s.try_to_uppercase().unwrap().as_str(), input.to_uppercase(), "{input}");
        let t = lean_string::LeanStr::try_from_str(input).unwrap();
        assert_eq!(t.try_to_uppercase().unwrap().as_str(), input.to_uppercase(), "{input}");
    }
}

#[test]
fn case_mapping_without_change_shares_buffer() {
    let text = "nothing here changes when lowered, 日本";
    let s = lean_string::LeanString::try_from_str(text).unwrap();
    let lowered = s.try_to_lowercase().unwrap();
    assert_eq!(lowered.as_str().as_ptr(), s.as_str().as_ptr());
}
