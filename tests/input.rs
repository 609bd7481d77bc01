use tetris::{key_from_byte, key_from_escape, Key, ESCAPE};

#[test]
fn single_bytes_map_to_keys() {
    assert_eq!(key_from_byte(b'w'), Some(Key::Up));
    assert_eq!(key_from_byte(b'a'), Some(Key::Left));
    assert_eq!(key_from_byte(b's'), Some(Key::Down));
    assert_eq!(key_from_byte(b'd'), Some(Key::Right));
    assert_eq!(key_from_byte(b' '), Some(Key::Space));
    assert_eq!(key_from_byte(3), Some(Key::CtrlC));
    assert_eq!(key_from_byte(b'q'), Some(Key::Char('q')));
    assert_eq!(key_from_byte(b'z'), Some(Key::Char('z')));
}

#[test]
fn escape_and_non_ascii_bytes_are_no_key() {
    assert_eq!(key_from_byte(ESCAPE), None);
    assert_eq!(key_from_byte(0xc3), None);
}

#[test]
fn arrow_sequences_map_to_keys() {
    assert_eq!(key_from_escape(*b"[A"), Some(Key::Up));
    assert_eq!(key_from_escape(*b"[B"), Some(Key::Down));
    assert_eq!(key_from_escape(*b"[C"), Some(Key::Right));
    assert_eq!(key_from_escape(*b"[D"), Some(Key::Left));
    assert_eq!(key_from_escape(*b"[E"), None);
    assert_eq!(key_from_escape(*b"OA"), None);
}
