//! Common value types of the board engine: the kinds a cell can have, the
//! errors a move can fail with, and the result of a chain search.

use vstd::prelude::*;

verus! {

/// The kind of a cell. Exactly one of four.
#[derive(Clone, Copy, PartialEq, Eq, Structural, Debug)]
pub enum CellKind {
    /// Not yet claimed by anybody.
    Empty,
    /// Claimed by exactly one player, not yet filled.
    Cross,
    /// Permanently owned territory of one player.
    Filled,
    /// Sentinel marking "out of bounds"; never the target of an operation.
    Border,
}

/// Why a move application or a cancellation was refused. All of these are
/// recoverable: the board is left exactly as it was before the failing call.
#[derive(Clone, Copy, PartialEq, Eq, Structural, Debug)]
pub enum BoardError {
    /// A player tried to fill a cross of their own.
    SelfFill,
    /// The target cell is already filled.
    DoubleFill,
    /// The target is a border cell, or lies outside the board.
    BorderHit,
    /// The target cell is not activated for the moving player.
    OutOfReach,
    /// A cancellation was asked of an empty cell.
    EmptyCancel,
}

impl BoardError {
    /// A short description of the error, in words.
    pub fn message(&self) -> (s: &'static str)
        ensures
            s@ == match *self {
                BoardError::SelfFill => "can't fill cell with its own color"@,
                BoardError::DoubleFill => "can't fill filled cell"@,
                BoardError::BorderHit => "border hit"@,
                BoardError::OutOfReach => "cell is out of reach"@,
                BoardError::EmptyCancel => "can't cancel empty cell"@,
            },
    {
        match *self {
            BoardError::SelfFill => "can't fill cell with its own color",
            BoardError::DoubleFill => "can't fill filled cell",
            BoardError::BorderHit => "border hit",
            BoardError::OutOfReach => "cell is out of reach",
            BoardError::EmptyCancel => "can't cancel empty cell",
        }
    }
}

/// What a chain search found: `cross` is the index of a cross that can act
/// as a new activator, and `filled` is the index of an adjacent filled cell
/// belonging to the chain that was searched.
#[derive(Clone, Copy, PartialEq, Eq, Structural, Debug)]
pub struct SearchResult {
    pub filled: usize,
    pub cross: usize,
}

} // verus!
