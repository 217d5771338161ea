//! Combinational logic equivalence checking.
//!
//! Two gate-level netlists (golden and revised) and a Liberty library in, a
//! verdict out: do they compute the same function? Every endpoint of both
//! designs is built into a canonical ROBDD over one shared variable order, so
//! equal functions share a node and the check is exact, not a sample. When two
//! endpoints differ, the miter yields a concrete input counter-example.
//!
//! Sequential designs are cut at the registers: flop Q nets are free inputs and
//! flop D nets are endpoints, with registers matched by name.

pub mod bdd;
pub mod lec;
pub mod liberty;
pub mod netlist;
pub mod report;

use vstd::prelude::*;

verus! {

/// The release of this library.
pub const VERSION: &'static str = "0.1.0";

/// The notice the command-line program prints.
pub const COPYRIGHT: &'static str = "© 2026 Vyges. All Rights Reserved.  https://vyges.com";

} // verus!
