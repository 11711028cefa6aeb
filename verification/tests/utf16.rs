use lean_string::utf16::{decode_utf16, decode_utf16_bytes, decode_utf16_lossy, units_of_bytes};
use lean_string::{FromUtf16ErrorKind, LeanStr, LeanString};

fn samples() -> Vec<Vec<u16>> {
    vec![
        vec![],
        "plain ascii".encode_utf16().collect(),
        "é日本語 and 🦀 crab, a longer text".encode_utf16().collect(),
        vec![0xD83E, 0xDD80],
        vec![0x61, 0xD800],
        vec![0xDC00, 0x62],
        vec![0xD800, 0x63, 0xDFFF],
        vec![0xFFFF, 0xE000, 0xD7FF],
    ]
}

#[test]
fn utf16_matches_std() {
    for units in samples() {
        let expected = String::from_utf16(&units);
        let lean = LeanString::try_from_utf16(&units);
        let immutable = LeanStr::try_from_utf16(&units);
        assert_eq!(lean.is_err(), expected.is_err());
        assert_eq!(immutable.is_err(), expected.is_err());
        if let Ok(text) = &expected {
            assert_eq!(lean.unwrap().unwrap().as_str(), text);
            assert_eq!(immutable.unwrap().unwrap().as_str(), text);
        } else {
            assert_eq!(lean.err().unwrap().kind, FromUtf16ErrorKind::LoneSurrogate);
        }
        let lossy = String::from_utf16_lossy(&units);
        assert_eq!(LeanString::try_from_utf16_lossy(&units).unwrap().as_str(), lossy);
        assert_eq!(LeanStr::try_from_utf16_lossy(&units).unwrap().as_str(), lossy);
    }
}

fn to_bytes(units: &[u16], little: bool) -> Vec<u8> {
    units
        .iter()
        .flat_map(|u| if little { u.to_le_bytes() } else { u.to_be_bytes() })
        .collect()
}

fn std_utf16(bytes: &[u8], little: bool) -> Option<String> {
    if bytes.len() % 2 == 1 {
        return None;
    }
    let units: Vec<u16> = bytes
        .chunks(2)
        .map(|c| if little { u16::from_le_bytes([c[0], c[1]]) } else { u16::from_be_bytes([c[0], c[1]]) })
        .collect();
    String::from_utf16(&units).ok()
}

fn std_utf16_lossy(bytes: &[u8], little: bool) -> String {
    let units: Vec<u16> = bytes
        .chunks_exact(2)
        .map(|c| if little { u16::from_le_bytes([c[0], c[1]]) } else { u16::from_be_bytes([c[0], c[1]]) })
        .collect();
    let mut s = String::from_utf16_lossy(&units);
    if bytes.len() % 2 == 1 {
        s.push('\u{FFFD}');
    }
    s
}

#[test]
fn utf16_bytes_match_std() {
    for units in samples() {
        for little in [true, false] {
            let mut bytes = to_bytes(&units, little);
            for odd in [false, true] {
                if odd {
                    bytes.push(0x41);
                }
                let expected = std_utf16(&bytes, little);
                let lean = if little {
                    LeanString::try_from_utf16le(&bytes)
                } else {
                    LeanString::try_from_utf16be(&bytes)
                };
                match &expected {
                    Some(text) => assert_eq!(lean.unwrap().unwrap().as_str(), text),
                    None => {
                        let kind = lean.err().unwrap().kind;
                        if odd {
                            assert_eq!(kind, FromUtf16ErrorKind::OddBytes);
                        } else {
                            assert_eq!(kind, FromUtf16ErrorKind::LoneSurrogate);
                        }
                    },
                }
                let lossy = if little {
                    LeanStr::try_from_utf16le_lossy(&bytes)
                } else {
                    LeanStr::try_from_utf16be_lossy(&bytes)
                };
                assert_eq!(lossy.unwrap().as_str(), std_utf16_lossy(&bytes, little));
            }
        }
    }
}

#[test]
fn utf16_decoding_functions() {
    assert_eq!(decode_utf16(&[0x48, 0x69]).unwrap(), b"Hi".to_vec());
    assert_eq!(decode_utf16(&[0xD83E, 0xDD80]).unwrap(), "🦀".as_bytes().to_vec());
    assert_eq!(decode_utf16(&[0xD800]).err().unwrap().kind, FromUtf16ErrorKind::LoneSurrogate);
    assert_eq!(decode_utf16_lossy(&[0xD800, 0x41]), "\u{FFFD}A".as_bytes().to_vec());
    assert_eq!(units_of_bytes(&[0x01, 0x02, 0x03], true), vec![0x0201]);
    assert_eq!(units_of_bytes(&[0x01, 0x02], false), vec![0x0102]);
    assert_eq!(decode_utf16_bytes(&[0x41], true).err().unwrap().kind, FromUtf16ErrorKind::OddBytes);
}

#[test]
fn utf8_bytes_checked() {
    assert_eq!(LeanString::try_from_utf8(b"hello").unwrap().unwrap().as_str(), "hello");
    assert!(LeanString::try_from_utf8(&[0xFF, 0x41]).is_err());
    assert!(LeanStr::try_from_utf8(&[0xC3]).is_err());
    let long = "é日本語 and more text past the inline limit";
    let s = LeanStr::try_from_utf8(long.as_bytes()).unwrap().unwrap();
    assert_eq!(s.as_str(), long);
    assert!(s.is_heap_allocated());
}
