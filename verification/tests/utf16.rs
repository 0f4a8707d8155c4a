use find_core::utf16::{from_utf16_lossy, push_utf16};

#[test]
fn decoding_agrees_with_the_standard_library() {
    let samples: [&[u16]; 7] = [
        &[],
        &[0x61, 0x20AC, 0xD83D, 0xDE00],
        &[0xD83D],
        &[0xDE00, 0x61],
        &[0xD83D, 0x61],
        &[0xD83D, 0xD83D, 0xDE00],
        &[0xFFFF, 0xDBFF, 0xDFFF],
    ];
    for units in samples {
        assert_eq!(from_utf16_lossy(units), String::from_utf16_lossy(units));
    }
}

#[test]
fn encoding_agrees_with_the_standard_library() {
    for text in ["", "abc", "\u{20AC}\u{1F600}z", "\u{10FFFF}\u{FFFF}"] {
        let mut out = vec![7];
        push_utf16(&mut out, text);
        let expected: Vec<u16> = std::iter::once(7).chain(text.encode_utf16()).collect();
        assert_eq!(out, expected);
        assert_eq!(from_utf16_lossy(&out[1..]), text);
    }
}
