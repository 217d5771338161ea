//! A gate-level netlist: ports and cell instances with their pin-to-net
//! connections.

use vstd::prelude::*;

verus! {

/// One cell instance: its cell's name and its `(pin, net)` connections.
#[derive(Debug)]
pub struct Inst {
    pub cell: String,
    pub conns: Vec<(String, String)>,
}

/// A flattened gate-level module.
#[derive(Debug)]
pub struct Netlist {
    pub inputs: Vec<String>,
    pub outputs: Vec<String>,
    pub insts: Vec<Inst>,
}

} // verus!
