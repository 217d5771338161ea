use vyges_lec::bdd::Bdd;

#[test]
fn de_morgan_holds_by_canonicity() {
    let mut b = Bdd::new();
    let a = b.var(0);
    let c = b.var(1);
    // a & c  ==  !(!a | !c)
    let left = b.and(a, c);
    let na = b.not(a);
    let nc = b.not(c);
    let or = b.or(na, nc);
    let right = b.not(or);
    assert_eq!(left, right, "ROBDD is canonical -> equal functions share a node");
}

#[test]
fn xor_is_not_xnor_and_constants_fold() {
    let mut b = Bdd::new();
    let a = b.var(0);
    let c = b.var(1);
    let x = b.xor(a, c);
    let xn = b.xnor(a, c);
    assert_ne!(x, xn);
    // a ^ a = 0, a | !a = 1
    let z = b.xor(a, a);
    assert_eq!(z, b.zero());
    let na = b.not(a);
    let t = b.or(a, na);
    assert_eq!(t, b.one());
}

#[test]
fn sat_one_finds_a_difference() {
    let mut b = Bdd::new();
    let a = b.var(0);
    let c = b.var(1);
    // miter of (a) vs (a|c): differs exactly when a=0, c=1
    let f = a;
    let g = b.or(a, c);
    let m = b.xor(f, g);
    let asn = b.sat_one(m).expect("they differ");
    // reconstruct: a must be 0, c must be 1
    let a_val = asn.iter().find(|(v, _)| *v == 0).map(|(_, x)| *x);
    let c_val = asn.iter().find(|(v, _)| *v == 1).map(|(_, x)| *x);
    assert_eq!(a_val, Some(false));
    assert_eq!(c_val, Some(true));
}

#[test]
fn identical_functions_have_no_counterexample() {
    let mut b = Bdd::new();
    let a = b.var(0);
    let c = b.var(1);
    let f = b.and(a, c);
    let g = b.and(c, a); // commutative -> same node
    assert_eq!(f, g);
    let m = b.xor(f, g);
    assert!(b.sat_one(m).is_none(), "miter is FALSE -> equivalent");
}

/// The conjunction of the literals `lits`.
fn cube(b: &mut Bdd, lits: &[(u32, bool)]) -> u32 {
    let mut acc = b.one();
    for &(v, val) in lits {
        let x = b.var(v);
        let l = if val { x } else { b.not(x) };
        acc = b.and(acc, l);
    }
    acc
}

#[test]
fn constants_and_sizes() {
    let mut b = Bdd::new();
    assert_eq!(b.zero(), 0);
    assert_eq!(b.one(), 1);
    assert_eq!(b.node_count(), 2);
    let a = b.var(0);
    assert_eq!(b.node_count(), 3);
    // the same variable is the same node
    assert_eq!(b.var(0), a);
    assert_eq!(b.node_count(), 3);
    assert_eq!(b.sat_one(b.zero()), None);
    assert_eq!(b.sat_one(b.one()), Some(vec![]));
    assert_eq!(b.sat_one(a), Some(vec![(0, true)]));
    let d = Bdd::default();
    assert_eq!(d.node_count(), 2);
}

#[test]
fn ite_is_if_then_else() {
    let mut b = Bdd::new();
    let s = b.var(0);
    let x = b.var(1);
    let y = b.var(2);
    let m = b.ite(s, x, y);
    // (s & x) | (!s & y)
    let sx = b.and(s, x);
    let ns = b.not(s);
    let nsy = b.and(ns, y);
    let expect = b.or(sx, nsy);
    assert_eq!(m, expect);
    // shortcuts
    assert_eq!(b.ite(b.one(), x, y), x);
    assert_eq!(b.ite(b.zero(), x, y), y);
    assert_eq!(b.ite(s, x, x), x);
    assert_eq!(b.ite(s, b.one(), b.zero()), s);
}

#[test]
fn miter_zero_iff_same_handle() {
    let mut b = Bdd::new();
    let a = b.var(0);
    let c = b.var(1);
    let f = b.xnor(a, c);
    let na = b.not(a);
    let g = b.xor(na, c); // !a ^ c == a xnor c
    assert_eq!(f, g);
    assert_eq!(b.xor(f, g), b.zero());
    let h = b.or(a, c);
    assert_ne!(b.xor(f, h), b.zero());
}

#[test]
fn sat_one_paths_prefer_the_high_branch_and_satisfy() {
    let mut b = Bdd::new();
    let a = b.var(0);
    let c = b.var(1);
    let na = b.not(a);
    let f = b.and(na, c);
    // the only satisfying path: a = 0, c = 1
    assert_eq!(b.sat_one(f), Some(vec![(0, false), (1, true)]));
    let q = cube(&mut b, &[(0, false), (1, true)]);
    assert_eq!(q, f);
    let g = b.or(a, c);
    assert_eq!(b.sat_one(g), Some(vec![(0, true)]));
}

#[test]
fn a_variable_is_one_shared_node() {
    let mut b = Bdd::new();
    let a = b.var(0);
    assert!(a >= 2);
    assert_eq!(b.node_count(), 3);
    assert_eq!(b.var(0), a);
    assert_eq!(b.node_count(), 3);
    let c = b.var(1);
    assert_ne!(c, a);
    assert_eq!(b.node_count(), 4);
}

#[test]
fn trivial_ite_cases_allocate_nothing() {
    let mut b = Bdd::new();
    let a = b.var(0);
    let c = b.var(1);
    let n = b.node_count();
    assert_eq!(b.ite(1, a, c), a);
    assert_eq!(b.ite(0, a, c), c);
    assert_eq!(b.ite(a, c, c), c);
    assert_eq!(b.ite(a, 1, 0), a);
    assert_eq!(b.and(a, 1), a);
    assert_eq!(b.and(a, 0), 0);
    assert_eq!(b.or(a, 0), a);
    assert_eq!(b.or(a, 1), 1);
    assert_eq!(b.not(0), 1);
    assert_eq!(b.node_count(), n);
}

#[test]
fn negation_is_an_involution() {
    let mut b = Bdd::new();
    let a = b.var(0);
    let c = b.var(1);
    let f = b.xor(a, c);
    let nf = b.not(f);
    assert_eq!(b.not(nf), f);
    assert_eq!(b.and(a, c), b.and(c, a));
}

#[test]
fn one_and_zero_are_handles_and_sat_one_of_true_is_empty() {
    let mut b = Bdd::new();
    let t = b.one();
    let f = b.zero();
    assert!((t as usize) < b.node_count() && (f as usize) < b.node_count());
    assert_eq!(b.sat_one(t), Some(vec![]));
    assert_eq!(b.sat_one(f), None);
    let a = b.var(3);
    assert_eq!(b.sat_one(a), Some(vec![(3, true)]));
}

#[test]
fn the_last_variable_index_is_a_variable_too() {
    let mut b = Bdd::new();
    let last = b.var(u32::MAX);
    assert!(last >= 2);
    let a = b.var(0);
    let f = b.and(a, last);
    assert_eq!(b.sat_one(f), Some(vec![(0, true), (u32::MAX, true)]));
    let nl = b.not(last);
    assert_eq!(b.or(last, nl), b.one());
    assert_eq!(b.var(u32::MAX), last);
}
