use vyges_lec::bdd::{Bdd, NODE_CAPACITY};
use vyges_lec::lec::{equivalence, equivalence_in, LecReport};
use vyges_lec::liberty::{Cell, Dir, Lib, Pin};
use vyges_lec::netlist::{Inst, Netlist};

fn pin(name: &str, direction: Dir) -> Pin {
    Pin { name: name.to_string(), direction, has_setup: false }
}

fn comb(name: &str, ins: &[&str], out: &str) -> Cell {
    let mut pins: Vec<Pin> = ins.iter().map(|p| pin(p, Dir::In)).collect();
    pins.push(pin(out, Dir::Out));
    Cell { name: name.to_string(), pins, is_seq: false, clock_pin: None }
}

/// The cells the examples use: AND2/OR2 (A, B -> Z), INV (A -> Y), a D flop
/// (CK, D -> Q) with a setup check on D, and a few more primitives.
fn lib() -> Lib {
    let dff = Cell {
        name: "DFF".to_string(),
        pins: vec![
            pin("CK", Dir::In),
            Pin { name: "D".to_string(), direction: Dir::In, has_setup: true },
            pin("Q", Dir::Out),
        ],
        is_seq: true,
        clock_pin: Some("CK".to_string()),
    };
    Lib {
        cells: vec![
            comb("AND2", &["A", "B"], "Z"),
            comb("OR2", &["A", "B"], "Z"),
            comb("INV", &["A"], "Y"),
            comb("BUF", &["A"], "Y"),
            comb("NAND2", &["A", "B"], "Y"),
            comb("NOR2", &["A", "B"], "Y"),
            comb("XOR2", &["A", "B"], "Y"),
            comb("XNOR2", &["A", "B"], "Y"),
            comb("MUX2", &["A", "B", "S"], "Y"),
            comb("AND3", &["A", "B", "C"], "Z"),
            comb("AOI21", &["A", "B", "C"], "Y"),
            comb("MUXABC", &["A", "B", "C"], "Y"),
            dff,
        ],
    }
}

fn s(x: &str) -> String {
    x.to_string()
}

/// An instance (its instance name only documents the test).
fn inst(_name: &str, cell: &str, conns: &[(&str, &str)]) -> Inst {
    Inst { cell: s(cell), conns: conns.iter().map(|(p, n)| (s(p), s(n))).collect() }
}

fn nl(inputs: &[&str], outputs: &[&str], insts: Vec<Inst>) -> Netlist {
    Netlist {
        inputs: inputs.iter().map(|x| s(x)).collect(),
        outputs: outputs.iter().map(|x| s(x)).collect(),
        insts,
    }
}

/// module t(a,b,f); input a,b; output f; AND2 g(.A(a),.B(b),.Z(f)); endmodule
fn and_design() -> Netlist {
    nl(&["a", "b"], &["f"], vec![inst("g", "AND2", &[("A", "a"), ("B", "b"), ("Z", "f")])])
}

#[test]
fn de_morgan_rewrite_is_equivalent() {
    // golden: f = a & b   |   revised: f = !(!a | !b)
    let g = and_design();
    let r = nl(
        &["a", "b"],
        &["f"],
        vec![
            inst("i1", "INV", &[("A", "a"), ("Y", "na")]),
            inst("i2", "INV", &[("A", "b"), ("Y", "nb")]),
            inst("o1", "OR2", &[("A", "na"), ("B", "nb"), ("Z", "o")]),
            inst("i3", "INV", &[("A", "o"), ("Y", "f")]),
        ],
    );
    let rep = equivalence(&g, &r, &lib()).unwrap();
    assert!(rep.equivalent, "{:?}", rep.mismatches);
    assert_eq!(rep.compared, 1);
}

#[test]
fn a_real_bug_is_caught_with_a_counterexample() {
    // golden: f = a & b   |   revised (buggy): f = a | b
    let g = and_design();
    let r = nl(&["a", "b"], &["f"], vec![inst("g", "OR2", &[("A", "a"), ("B", "b"), ("Z", "f")])]);
    let rep = equivalence(&g, &r, &lib()).unwrap();
    assert!(!rep.equivalent);
    assert_eq!(rep.mismatches.len(), 1);
    let cex = &rep.mismatches[0].counterexample;
    // and != or exactly when a,b are not both 1 and not both 0 — i.e. they differ
    let val = |n: &str| cex.iter().find(|(k, _)| k == n).map(|(_, v)| *v);
    // at least one of a,b is in the counterexample and they aren't equal-true
    assert!(val("a").is_some() || val("b").is_some());
}

#[test]
fn sequential_equivalence_cuts_at_registers() {
    // both register `a & b`; revised uses De Morgan in the cone feeding D.
    let g = nl(
        &["a", "b", "clk"],
        &["q"],
        vec![
            inst("g", "AND2", &[("A", "a"), ("B", "b"), ("Z", "d")]),
            inst("r", "DFF", &[("CK", "clk"), ("D", "d"), ("Q", "q")]),
        ],
    );
    let r = nl(
        &["a", "b", "clk"],
        &["q"],
        vec![
            inst("i1", "INV", &[("A", "a"), ("Y", "na")]),
            inst("i2", "INV", &[("A", "b"), ("Y", "nb")]),
            inst("o1", "OR2", &[("A", "na"), ("B", "nb"), ("Z", "o")]),
            inst("i3", "INV", &[("A", "o"), ("Y", "d")]),
            inst("r", "DFF", &[("CK", "clk"), ("D", "d"), ("Q", "q")]),
        ],
    );
    let rep = equivalence(&g, &r, &lib()).unwrap();
    assert!(rep.equivalent, "{:?}", rep.mismatches);
    assert!(rep.compared >= 1, "compared the flop D endpoint");
}

fn check(g: &Netlist, r: &Netlist) -> LecReport {
    equivalence(g, r, &lib()).unwrap()
}

#[test]
fn counterexample_is_exact_for_and_versus_or() {
    let g = and_design();
    let r = nl(&["a", "b"], &["f"], vec![inst("g", "OR2", &[("A", "a"), ("B", "b"), ("Z", "f")])]);
    let rep = check(&g, &r);
    assert_eq!(rep.mismatches[0].endpoint, "f");
    // the miter a ^ b takes the high branch on a first: a = 1, b = 0
    assert_eq!(rep.mismatches[0].counterexample, vec![(s("a"), true), (s("b"), false)]);
    assert_eq!(rep.compared, 1);
}

#[test]
fn endpoints_only_in_one_design_are_reported() {
    let g = nl(
        &["a", "b"],
        &["f", "g"],
        vec![
            inst("x", "AND2", &[("A", "a"), ("B", "b"), ("Z", "f")]),
            inst("y", "OR2", &[("A", "a"), ("B", "b"), ("Z", "g")]),
        ],
    );
    let r = nl(
        &["a", "b"],
        &["f", "h"],
        vec![
            inst("x", "AND2", &[("A", "b"), ("B", "a"), ("Z", "f")]),
            inst("y", "XOR2", &[("A", "a"), ("B", "b"), ("Y", "h")]),
        ],
    );
    let rep = check(&g, &r);
    assert!(!rep.equivalent);
    assert_eq!(rep.compared, 1);
    assert!(rep.mismatches.is_empty());
    assert_eq!(rep.only_in_golden, vec![s("g")]);
    assert_eq!(rep.only_in_revised, vec![s("h")]);
}

#[test]
fn nand_nor_xnor_buf_and_mux_primitives() {
    // f = !(a & b) two ways, g = !(a | b), h = a xnor b, m = s ? b : a
    let g = nl(
        &["a", "b", "s"],
        &["f", "g", "h", "m"],
        vec![
            inst("n1", "NAND2", &[("A", "a"), ("B", "b"), ("Y", "f")]),
            inst("n2", "NOR2", &[("A", "a"), ("B", "b"), ("Y", "g")]),
            inst("n3", "XNOR2", &[("A", "a"), ("B", "b"), ("Y", "h")]),
            inst("n4", "MUX2", &[("A", "a"), ("B", "b"), ("S", "s"), ("Y", "m")]),
        ],
    );
    let r = nl(
        &["a", "b", "s"],
        &["f", "g", "h", "m"],
        vec![
            inst("i1", "INV", &[("A", "a"), ("Y", "na")]),
            inst("i2", "INV", &[("A", "b"), ("Y", "nb")]),
            inst("o1", "OR2", &[("A", "na"), ("B", "nb"), ("Z", "f0")]),
            inst("b1", "BUF", &[("A", "f0"), ("Y", "f")]),
            inst("a1", "AND2", &[("A", "na"), ("B", "nb"), ("Z", "g")]),
            inst("x1", "XOR2", &[("A", "na"), ("B", "b"), ("Y", "h")]),
            inst("ns", "INV", &[("A", "s"), ("Y", "nsel")]),
            inst("m1", "MUX2", &[("A", "b"), ("B", "a"), ("S", "nsel"), ("Y", "m")]),
        ],
    );
    let rep = check(&g, &r);
    assert!(rep.equivalent, "{:?}", rep.mismatches);
    assert_eq!(rep.compared, 4);
}

#[test]
fn three_input_and_folds_all_inputs() {
    let g = nl(&["a", "b", "c"], &["f"], vec![inst("x", "AND3", &[("A", "a"), ("B", "b"), ("C", "c"), ("Z", "f")])]);
    let r = nl(
        &["a", "b", "c"],
        &["f"],
        vec![
            inst("x", "AND2", &[("A", "a"), ("B", "b"), ("Z", "t")]),
            inst("y", "AND2", &[("A", "t"), ("B", "c"), ("Z", "f")]),
        ],
    );
    assert!(check(&g, &r).equivalent);
    let r2 = nl(&["a", "b", "c"], &["f"], vec![inst("x", "AND2", &[("A", "a"), ("B", "b"), ("Z", "f")])]);
    let rep = check(&g, &r2);
    assert!(!rep.equivalent);
    assert_eq!(rep.mismatches[0].counterexample, vec![(s("a"), true), (s("b"), true), (s("c"), false)]);
}

#[test]
fn undriven_nets_are_free_inputs() {
    // `w` is driven by nothing: it is a free variable in both designs
    let g = nl(&["a"], &["f"], vec![inst("x", "AND2", &[("A", "a"), ("B", "w"), ("Z", "f")])]);
    let r = nl(&["a"], &["f"], vec![inst("x", "AND2", &[("A", "w"), ("B", "a"), ("Z", "f")])]);
    assert!(check(&g, &r).equivalent);
    let r2 = nl(&["a"], &["f"], vec![inst("x", "BUF", &[("A", "a"), ("Y", "f")])]);
    let rep = check(&g, &r2);
    assert_eq!(rep.mismatches[0].counterexample, vec![(s("a"), true), (s("w"), false)]);
}

#[test]
fn a_combinational_loop_is_an_error() {
    let g = nl(
        &["a"],
        &["f"],
        vec![
            inst("x", "AND2", &[("A", "a"), ("B", "f"), ("Z", "u")]),
            inst("y", "BUF", &[("A", "u"), ("Y", "f")]),
        ],
    );
    let err = equivalence(&g, &and_design(), &lib()).unwrap_err();
    assert!(err.starts_with("combinational loop through net `"), "{err}");
}

#[test]
fn unknown_primitives_and_bad_arity_are_errors() {
    let g = nl(&["a", "b", "c"], &["f"], vec![inst("x", "AOI21", &[("A", "a"), ("B", "b"), ("C", "c"), ("Y", "f")])]);
    let err = equivalence(&g, &g, &lib()).unwrap_err();
    assert_eq!(err, "cell `AOI21` is not a known logic primitive");
    // an inverter with its input unconnected has no inputs
    let h = nl(&["a"], &["f"], vec![inst("x", "INV", &[("Y", "f")])]);
    let err = equivalence(&h, &h, &lib()).unwrap_err();
    assert_eq!(err, "primitive expected 1 input(s), got 0");
    let m = nl(&["a"], &["f"], vec![inst("x", "AND2", &[("Z", "f")])]);
    let err = equivalence(&m, &m, &lib()).unwrap_err();
    assert_eq!(err, "AND/NAND needs inputs");
}

#[test]
fn an_empty_liberty_is_an_error() {
    let g = and_design();
    let err = equivalence(&g, &g, &Lib { cells: vec![] }).unwrap_err();
    assert_eq!(err, "no cells in the Liberty");
}

#[test]
fn identical_designs_are_equivalent() {
    let g = and_design();
    let rep = check(&g, &g);
    assert!(rep.equivalent);
    assert_eq!(rep.compared, 1);
    assert!(rep.only_in_golden.is_empty() && rep.only_in_revised.is_empty());
}

#[test]
fn mux_without_a_select_pin_and_empty_or_xor_are_errors() {
    let m = nl(&["a", "b", "c"], &["f"], vec![inst("x", "MUXABC", &[("A", "a"), ("B", "b"), ("C", "c"), ("Y", "f")])]);
    assert_eq!(equivalence(&m, &m, &lib()).unwrap_err(), "MUX needs pins A, B, S");
    let o = nl(&["a"], &["f"], vec![inst("x", "OR2", &[("Z", "f")])]);
    assert_eq!(equivalence(&o, &o, &lib()).unwrap_err(), "OR/NOR needs inputs");
    let x = nl(&["a"], &["f"], vec![inst("x", "XOR2", &[("Y", "f")])]);
    assert_eq!(equivalence(&x, &x, &lib()).unwrap_err(), "XOR/XNOR needs inputs");
}

#[test]
fn report_lists_are_sorted_and_the_variable_order_is_sorted_inputs() {
    // outputs and inputs listed out of order
    let g = nl(
        &["b", "a"],
        &["z", "f", "y"],
        vec![
            inst("x", "AND2", &[("A", "b"), ("B", "a"), ("Z", "f")]),
            inst("p", "BUF", &[("A", "a"), ("Y", "z")]),
            inst("q", "BUF", &[("A", "b"), ("Y", "y")]),
        ],
    );
    let r = nl(&["b", "a"], &["f"], vec![inst("x", "OR2", &[("A", "b"), ("B", "a"), ("Z", "f")])]);
    let rep = check(&g, &r);
    assert_eq!(rep.only_in_golden, vec![s("y"), s("z")]);
    assert!(rep.only_in_revised.is_empty());
    // the variables are ordered a, b whatever the port order
    assert_eq!(rep.mismatches[0].counterexample, vec![(s("a"), true), (s("b"), false)]);
}

#[test]
fn register_outputs_are_free_and_clock_pins_are_not_inputs() {
    // q is a register output: a free variable, not traced through the flop
    let g = nl(
        &["a", "clk"],
        &["f"],
        vec![
            inst("r", "DFF", &[("CK", "clk"), ("D", "a"), ("Q", "q")]),
            inst("x", "AND2", &[("A", "q"), ("B", "a"), ("Z", "f")]),
        ],
    );
    let r = nl(
        &["a", "clk"],
        &["f"],
        vec![
            inst("r", "DFF", &[("CK", "clk"), ("D", "a"), ("Q", "q")]),
            inst("x", "AND2", &[("A", "a"), ("B", "a"), ("Z", "f")]),
        ],
    );
    let rep = check(&g, &r);
    // endpoints: f and the flop data net a
    assert_eq!(rep.compared, 2);
    assert!(!rep.equivalent);
    assert_eq!(rep.mismatches.len(), 1);
    assert_eq!(rep.mismatches[0].endpoint, "f");
    assert_eq!(rep.mismatches[0].counterexample, vec![(s("a"), true), (s("q"), false)]);
}

#[test]
fn a_cell_missing_from_the_liberty_is_an_error() {
    // two different unknown cells must not compare as equivalent free outputs
    let g = nl(&["a", "b"], &["f"], vec![inst("x", "FOO2", &[("A", "a"), ("B", "b"), ("Z", "f")])]);
    let r = nl(&["a", "b"], &["f"], vec![inst("x", "BAR2", &[("A", "a"), ("B", "b"), ("Z", "f")])]);
    assert_eq!(equivalence(&g, &r, &lib()).unwrap_err(), "no cell `FOO2` in Liberty");
    assert_eq!(equivalence(&and_design(), &r, &lib()).unwrap_err(), "no cell `BAR2` in Liberty");
}

#[test]
fn counterexample_names_each_net_once() {
    let g = nl(&["a", "b", "c"], &["f"], vec![inst("x", "AND3", &[("A", "a"), ("B", "b"), ("C", "c"), ("Z", "f")])]);
    let r = nl(&["a", "b", "c"], &["f"], vec![inst("x", "AND2", &[("A", "a"), ("B", "b"), ("Z", "f")])]);
    let rep = check(&g, &r);
    let cex = &rep.mismatches[0].counterexample;
    for i in 0..cex.len() {
        for j in i + 1..cex.len() {
            assert_ne!(cex[i].0, cex[j].0);
        }
    }
    assert_eq!(cex, &vec![(s("a"), true), (s("b"), true), (s("c"), false)]);
}

#[test]
fn checking_in_a_given_package_fills_it_only_as_needed() {
    let g = and_design();
    let r = nl(
        &["a", "b"],
        &["f"],
        vec![
            inst("i1", "INV", &[("A", "a"), ("Y", "na")]),
            inst("i2", "INV", &[("A", "b"), ("Y", "nb")]),
            inst("o1", "OR2", &[("A", "na"), ("B", "nb"), ("Z", "o")]),
            inst("i3", "INV", &[("A", "o"), ("Y", "f")]),
        ],
    );
    let mut bdd = Bdd::new();
    let rep = equivalence_in(&g, &r, &lib(), &mut bdd).unwrap();
    assert!(rep.equivalent);
    assert!(bdd.node_count() < NODE_CAPACITY);
    // over two variables a & b is three inner nodes at most, plus the terminals
    assert!(bdd.node_count() <= 2 + 6);
}

#[test]
fn swapping_the_designs_mirrors_the_report() {
    let g = nl(&["a", "b"], &["f", "g"], vec![inst("x", "AND2", &[("A", "a"), ("B", "b"), ("Z", "f")])]);
    let r = nl(&["a", "b"], &["f", "h"], vec![inst("x", "OR2", &[("A", "a"), ("B", "b"), ("Z", "f")])]);
    let one = check(&g, &r);
    let two = check(&r, &g);
    assert_eq!(one.equivalent, two.equivalent);
    assert_eq!(one.compared, two.compared);
    assert_eq!(one.only_in_golden, two.only_in_revised);
    assert_eq!(one.only_in_revised, two.only_in_golden);
    let e1: Vec<&String> = one.mismatches.iter().map(|m| &m.endpoint).collect();
    let e2: Vec<&String> = two.mismatches.iter().map(|m| &m.endpoint).collect();
    assert_eq!(e1, e2);
    let again = check(&g, &r);
    assert_eq!(again.only_in_golden, one.only_in_golden);
    assert_eq!(again.mismatches[0].counterexample, one.mismatches[0].counterexample);
}

#[test]
fn an_empty_report_and_cloned_mismatches() {
    let r = LecReport::default();
    assert!(!r.equivalent);
    assert_eq!(r.compared, 0);
    assert!(r.mismatches.is_empty() && r.only_in_golden.is_empty() && r.only_in_revised.is_empty());
    let g = and_design();
    let o = nl(&["a", "b"], &["f"], vec![inst("g", "OR2", &[("A", "a"), ("B", "b"), ("Z", "f")])]);
    let rep = check(&g, &o);
    let m = rep.mismatches[0].clone();
    assert_eq!(m.endpoint, rep.mismatches[0].endpoint);
    assert_eq!(m.counterexample, rep.mismatches[0].counterexample);
}

#[test]
fn primitive_names_ignore_case() {
    let lower = Lib { cells: vec![comb("and2_x1", &["A", "B"], "Z"), comb("nand2", &["A", "B"], "Y")] };
    let g = nl(&["a", "b"], &["f"], vec![inst("g", "and2_x1", &[("A", "a"), ("B", "b"), ("Z", "f")])]);
    let r = nl(
        &["a", "b"],
        &["f"],
        vec![
            inst("n", "nand2", &[("A", "a"), ("B", "b"), ("Y", "x")]),
            inst("m", "nand2", &[("A", "x"), ("B", "x"), ("Y", "f")]),
        ],
    );
    assert!(equivalence(&g, &r, &lower).unwrap().equivalent);
}
