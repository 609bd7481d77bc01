//! Small value types shared by the rest of the engine.
use vstd::prelude::*;

verus! {

/// The colour of a piece, and of a board cell that a piece was locked into.
#[derive(Debug, PartialEq, Eq, Structural, Copy, Clone)]
pub enum Color {
    Black,
    Cyan,
    Purple,
    Green,
    Red,
    Blue,
    Orange,
    Yellow,
}

/// The sense of a quarter turn: `Left` is counter-clockwise, `Right` clockwise.
#[derive(Debug, PartialEq, Eq, Structural, Copy, Clone)]
pub enum Direction {
    Left,
    Right,
}

/// A cell coordinate on the board: `x` grows to the right, `y` grows downward.
#[derive(Debug, PartialEq, Eq, Structural, Copy, Clone)]
pub struct Point {
    pub x: i32,
    pub y: i32,
}

} // verus!
