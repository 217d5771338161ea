//! The part of a Liberty library the equivalence check reads: each cell's pins
//! with their directions, its sequential flag and its clock pin.

use vstd::prelude::*;

verus! {

/// A pin's direction.
#[derive(Clone, Copy, Debug, PartialEq, Eq, Structural)]
pub enum Dir {
    In,
    Out,
    InOut,
}

/// One pin of a cell.
#[derive(Debug)]
pub struct Pin {
    pub name: String,
    pub direction: Dir,
    /// The pin has setup constraints (a register data pin).
    pub has_setup: bool,
}

/// One library cell.
#[derive(Debug)]
pub struct Cell {
    pub name: String,
    pub pins: Vec<Pin>,
    /// A register (flip-flop or latch) rather than combinational logic.
    pub is_seq: bool,
    pub clock_pin: Option<String>,
}

/// A Liberty library: its cells, looked up by name (the first cell of a name wins).
#[derive(Debug)]
pub struct Lib {
    pub cells: Vec<Cell>,
}

} // verus!
