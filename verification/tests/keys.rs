use todotree::input::{decode_codepoint, utf8_len, utf8_start};

#[test]
fn start_bytes_are_everything_but_continuations() {
    assert!(utf8_start(0x00));
    assert!(utf8_start(b'q'));
    assert!(utf8_start(0x7f));
    assert!(utf8_start(0xc3));
    assert!(utf8_start(0xe2));
    assert!(utf8_start(0xf0));
    assert!(!utf8_start(0x80));
    assert!(!utf8_start(0xbf));
}

#[test]
fn lead_bytes_announce_their_length() {
    assert_eq!(utf8_len(b'a'), 1);
    assert_eq!(utf8_len(0x7f), 1);
    assert_eq!(utf8_len(0x80), 0);
    assert_eq!(utf8_len(0xbf), 0);
    assert_eq!(utf8_len(0xc3), 2);
    assert_eq!(utf8_len(0xdf), 2);
    assert_eq!(utf8_len(0xe2), 3);
    assert_eq!(utf8_len(0xf0), 4);
    assert_eq!(utf8_len(0xf4), 4);
    // Bytes of the form 11111xxx announce five leading ones; no valid
    // scalar uses them, and the reader then gathers garbage that the
    // decoder rejects.
    assert_eq!(utf8_len(0xf8), 5);
    assert_eq!(utf8_len(0xff), 5);
}

#[test]
fn single_byte_keystrokes_decode() {
    assert_eq!(decode_codepoint(&[b'q']), Some('q'));
    assert_eq!(decode_codepoint(&[b' ']), Some(' '));
}

#[test]
fn multi_byte_keystrokes_decode() {
    assert_eq!(decode_codepoint(&[0xc3, 0xa9]), Some('é'));
    assert_eq!(decode_codepoint(&[0xe2, 0x82, 0xac]), Some('€'));
    assert_eq!(decode_codepoint(&[0xf0, 0x9f, 0x8e, 0x89]), Some('🎉'));
}

#[test]
fn malformed_sequences_are_refused() {
    assert_eq!(decode_codepoint(&[]), None);
    // A lead byte with a missing or broken continuation.
    assert_eq!(decode_codepoint(&[0xc3]), None);
    assert_eq!(decode_codepoint(&[0xc3, 0x28]), None);
    // An overlong encoding of '/'.
    assert_eq!(decode_codepoint(&[0xc0, 0xaf]), None);
    // A stray continuation byte on its own.
    assert_eq!(decode_codepoint(&[0x80]), None);
}
