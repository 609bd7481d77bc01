//! Turning the bytes read from a raw-mode terminal into key presses.
use vstd::prelude::*;

use crate::game::Key;

verus! {

/// The byte that starts a three-byte arrow-key sequence.
pub const ESCAPE: u8 = 27;

/// The key that the single byte `b` stands for. The escape byte and bytes
/// that are no character on their own stand for no key.
pub open spec fn byte_key(b: u8) -> Option<Key> {
    if b == 119 {
        Some(Key::Up)
    } else if b == 97 {
        Some(Key::Left)
    } else if b == 115 {
        Some(Key::Down)
    } else if b == 100 {
        Some(Key::Right)
    } else if b == 32 {
        Some(Key::Space)
    } else if b == 3 {
        Some(Key::CtrlC)
    } else if b == ESCAPE || b >= 128 {
        None
    } else {
        Some(Key::Char(b as char))
    }
}

/// The arrow key that the two bytes after an escape byte stand for.
pub open spec fn escape_key(code: Seq<u8>) -> Option<Key> {
    if code.len() != 2 || code[0] != 91 {
        None
    } else if code[1] == 65 {
        Some(Key::Up)
    } else if code[1] == 66 {
        Some(Key::Down)
    } else if code[1] == 67 {
        Some(Key::Right)
    } else if code[1] == 68 {
        Some(Key::Left)
    } else {
        None
    }
}

/// The key that a single byte stands for: `w`, `a`, `s`, `d` steer, space
/// drops, control-C quits, any other character is passed on as itself.
pub fn key_from_byte(b: u8) -> (r: Option<Key>)
    ensures
        r == byte_key(b),
{
    if b == 119 {
        Some(Key::Up)
    } else if b == 97 {
        Some(Key::Left)
    } else if b == 115 {
        Some(Key::Down)
    } else if b == 100 {
        Some(Key::Right)
    } else if b == 32 {
        Some(Key::Space)
    } else if b == 3 {
        Some(Key::CtrlC)
    } else if b == ESCAPE || b >= 128 {
        None
    } else {
        Some(Key::Char(b as char))
    }
}

/// The arrow key that the two bytes read after an escape byte stand for.
pub fn key_from_escape(code: [u8; 2]) -> (r: Option<Key>)
    ensures
        r == escape_key(code@),
{
    if code[0] != 91 {
        None
    } else if code[1] == 65 {
        Some(Key::Up)
    } else if code[1] == 66 {
        Some(Key::Down)
    } else if code[1] == 67 {
        Some(Key::Right)
    } else if code[1] == 68 {
        Some(Key::Left)
    } else {
        None
    }
}

} // verus!
