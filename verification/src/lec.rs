//! Combinational logic equivalence check.
//!
//! Build a canonical ROBDD for every endpoint (primary output / flop data pin)
//! of the golden and the revised netlist in one shared package over one shared
//! variable order, then compare: two endpoints are equivalent exactly when their
//! BDDs are the same node. When they differ, the miter (their XOR) yields a
//! concrete input counter-example.
//!
//! Gate functions come from a built-in standard-cell primitive map (keyed on the
//! cell name's logic prefix: INV/BUF/AND/OR/NAND/NOR/XOR/XNOR/MUX); the Liberty
//! gives pin directions and tells combinational cells from sequential. Sequential
//! state is cut at the registers: flop Q nets are free inputs, flop D nets are
//! endpoints, so this proves the combinational logic between registers
//! (registers matched by name).

use crate::bdd::{Bdd, NODE_CAPACITY, TERM_VAR};
use crate::liberty::{Cell, Dir, Lib};
use crate::netlist::{Inst, Netlist};
use crate::report::{decimal, decimal_spec};
use vstd::arithmetic::power2::pow2;
use vstd::prelude::*;

verus! {

/// An endpoint whose two functions differ.
#[derive(Debug, Clone)]
pub struct Mismatch {
    pub endpoint: String,
    /// a primary-input assignment under which the two designs differ
    pub counterexample: Vec<(String, bool)>,
}

/// The verdict of an equivalence check.
#[derive(Debug)]
pub struct LecReport {
    pub equivalent: bool,
    pub compared: usize,
    pub mismatches: Vec<Mismatch>,
    pub only_in_golden: Vec<String>,
    pub only_in_revised: Vec<String>,
}

/// A primitive logic operation.
#[derive(Clone, Copy, Debug, PartialEq, Eq, Structural)]
pub enum Op {
    Buf,
    Not,
    And,
    Or,
    Nand,
    Nor,
    Xor,
    Xnor,
    Mux,
}

// ---------------------------------------------------------------------------
// Cell names to primitive operations

/// ASCII upper case of one character.
pub open spec fn upper_char(c: char) -> char {
    if 'a' <= c && c <= 'z' {
        ((c as u32) - 32) as char
    } else {
        c
    }
}

/// ASCII upper case of a name.
pub open spec fn upper(s: Seq<char>) -> Seq<char> {
    s.map_values(|c: char| upper_char(c))
}

/// `word` occurs in `s`.
pub open spec fn has_word(s: Seq<char>, word: Seq<char>) -> bool {
    exists|i: int| 0 <= i && i + word.len() <= s.len() && #[trigger] s.subrange(i, i + word.len()) == word
}

/// `s` begins with `word`.
pub open spec fn starts_with(s: Seq<char>, word: Seq<char>) -> bool {
    word.len() <= s.len() && s.subrange(0, word.len() as int) == word
}

/// The primitive a cell name stands for: the first keyword of XNOR, NAND, XOR,
/// NOR, MUX, INV (or a leading NOT), BUF, AND, OR that its upper case contains.
pub open spec fn spec_op_of(cell: Seq<char>) -> Option<Op> {
    let c = upper(cell);
    if has_word(c, seq!['X', 'N', 'O', 'R']) {
        Some(Op::Xnor)
    } else if has_word(c, seq!['N', 'A', 'N', 'D']) {
        Some(Op::Nand)
    } else if has_word(c, seq!['X', 'O', 'R']) {
        Some(Op::Xor)
    } else if has_word(c, seq!['N', 'O', 'R']) {
        Some(Op::Nor)
    } else if has_word(c, seq!['M', 'U', 'X']) {
        Some(Op::Mux)
    } else if has_word(c, seq!['I', 'N', 'V']) || starts_with(c, seq!['N', 'O', 'T']) {
        Some(Op::Not)
    } else if has_word(c, seq!['B', 'U', 'F']) {
        Some(Op::Buf)
    } else if has_word(c, seq!['A', 'N', 'D']) {
        Some(Op::And)
    } else if has_word(c, seq!['O', 'R']) {
        Some(Op::Or)
    } else {
        None
    }
}

/// The primitive map ignores case: names with the same upper-case form stand
/// for the same primitive.
pub proof fn lemma_op_of_ignores_case(a: Seq<char>, b: Seq<char>)
    requires
        upper(a) == upper(b),
    ensures
        spec_op_of(a) == spec_op_of(b),
{
}

/// `inner` occurs in `s` wherever `word` does, `off` characters in.
proof fn lemma_word_inside(s: Seq<char>, word: Seq<char>, inner: Seq<char>, off: int)
    requires
        has_word(s, word),
        0 <= off,
        off + inner.len() <= word.len(),
        word.subrange(off, off + inner.len()) == inner,
    ensures
        has_word(s, inner),
{
    let i = choose|i: int| 0 <= i && i + word.len() <= s.len() && #[trigger] s.subrange(i, i + word.len()) == word;
    assert(s.subrange(i + off, i + off + inner.len()) =~= s.subrange(i, i + word.len()).subrange(off, off + inner.len()));
}

/// A cell name stands for no primitive exactly when its upper-case form holds
/// none of MUX, INV, BUF, AND and OR and does not begin with NOT.
pub proof fn lemma_op_of_none(cell: Seq<char>)
    ensures
        spec_op_of(cell) is None <==> {
            let c = upper(cell);
            &&& !has_word(c, seq!['M', 'U', 'X'])
            &&& !has_word(c, seq!['I', 'N', 'V'])
            &&& !has_word(c, seq!['B', 'U', 'F'])
            &&& !has_word(c, seq!['A', 'N', 'D'])
            &&& !has_word(c, seq!['O', 'R'])
            &&& !starts_with(c, seq!['N', 'O', 'T'])
        },
{
    let c = upper(cell);
    if has_word(c, seq!['X', 'N', 'O', 'R']) {
        assert(seq!['X', 'N', 'O', 'R'].subrange(2, 4) =~= seq!['O', 'R']);
        lemma_word_inside(c, seq!['X', 'N', 'O', 'R'], seq!['O', 'R'], 2);
    }
    if has_word(c, seq!['N', 'A', 'N', 'D']) {
        assert(seq!['N', 'A', 'N', 'D'].subrange(1, 4) =~= seq!['A', 'N', 'D']);
        lemma_word_inside(c, seq!['N', 'A', 'N', 'D'], seq!['A', 'N', 'D'], 1);
    }
    if has_word(c, seq!['X', 'O', 'R']) {
        assert(seq!['X', 'O', 'R'].subrange(1, 3) =~= seq!['O', 'R']);
        lemma_word_inside(c, seq!['X', 'O', 'R'], seq!['O', 'R'], 1);
    }
    if has_word(c, seq!['N', 'O', 'R']) {
        assert(seq!['N', 'O', 'R'].subrange(1, 3) =~= seq!['O', 'R']);
        lemma_word_inside(c, seq!['N', 'O', 'R'], seq!['O', 'R'], 1);
    }
}

fn upper_chars(s: &String) -> (r: Vec<char>)
    ensures
        r@ == upper(s@),
{
    let mut r: Vec<char> = Vec::new();
    for c in it: s.as_str().chars()
        invariant
            r@.len() == it.index(),
            it.seq() == s@,
            forall|k: int| 0 <= k < r@.len() ==> r@[k] == upper_char(s@[k]),
    {
        let u = if 'a' <= c && c <= 'z' {
            ((c as u8) - 32) as char
        } else {
            c
        };
        r.push(u);
    }
    assert(r@ =~= upper(s@));
    r
}

/// `hay[at..]` begins with `word`.
fn matches_at(hay: &Vec<char>, word: &Vec<char>, at: usize) -> (b: bool)
    requires
        at + word@.len() <= hay@.len(),
    ensures
        b == (hay@.subrange(at as int, at + word@.len()) == word@),
{
    let n = hay.len();
    let mut j: usize = 0;
    while j < word.len()
        invariant
            n == hay@.len(),
            at + word@.len() <= hay@.len(),
            j <= word@.len(),
            forall|k: int| 0 <= k < j ==> hay@[at + k] == word@[k],
        decreases word@.len() - j,
    {
        if hay[at + j] != word[j] {
            assert(hay@.subrange(at as int, at + word@.len())[j as int] != word@[j as int]);
            return false;
        }
        j += 1;
    }
    assert(hay@.subrange(at as int, at + word@.len()) =~= word@);
    true
}

fn contains_word(hay: &Vec<char>, word: &Vec<char>) -> (b: bool)
    ensures
        b == has_word(hay@, word@),
{
    if word.len() > hay.len() {
        assert(!has_word(hay@, word@));
        return false;
    }
    if word.len() == 0 {
        assert(hay@.subrange(0, 0 + word@.len() as int) =~= word@);
        assert(has_word(hay@, word@));
        return true;
    }
    let n = hay.len();
    let last = n - word.len();
    let mut i: usize = 0;
    while i <= last
        invariant
            last == hay@.len() - word@.len(),
            word@.len() <= hay@.len(),
            1 <= word@.len() <= hay@.len(),
            hay@.len() <= usize::MAX,
            i <= last + 1,
            forall|i0: int|
                0 <= i0 < i ==> #[trigger] hay@.subrange(i0, i0 + word@.len()) != word@,
        decreases last + 1 - i,
    {
        if matches_at(hay, word, i) {
            assert(hay@.subrange(i as int, i + word@.len()) == word@);
            assert(has_word(hay@, word@));
            return true;
        }
        i += 1;
    }
    assert(!has_word(hay@, word@));
    false
}

fn starts_with_word(hay: &Vec<char>, word: &Vec<char>) -> (b: bool)
    ensures
        b == starts_with(hay@, word@),
{
    if word.len() > hay.len() {
        return false;
    }
    matches_at(hay, word, 0)
}

/// Map a cell name to a primitive logic op by its keywords (longer keywords
/// first so NAND beats AND, XNOR beats XOR, and so on).
fn op_of(cell: &String) -> (r: Option<Op>)
    ensures
        r == spec_op_of(cell@),
{
    let c = upper_chars(cell);
    if contains_word(&c, &vec!['X', 'N', 'O', 'R']) {
        Some(Op::Xnor)
    } else if contains_word(&c, &vec!['N', 'A', 'N', 'D']) {
        Some(Op::Nand)
    } else if contains_word(&c, &vec!['X', 'O', 'R']) {
        Some(Op::Xor)
    } else if contains_word(&c, &vec!['N', 'O', 'R']) {
        Some(Op::Nor)
    } else if contains_word(&c, &vec!['M', 'U', 'X']) {
        Some(Op::Mux)
    } else if contains_word(&c, &vec!['I', 'N', 'V']) || starts_with_word(&c, &vec!['N', 'O', 'T']) {
        Some(Op::Not)
    } else if contains_word(&c, &vec!['B', 'U', 'F']) {
        Some(Op::Buf)
    } else if contains_word(&c, &vec!['A', 'N', 'D']) {
        Some(Op::And)
    } else if contains_word(&c, &vec!['O', 'R']) {
        Some(Op::Or)
    } else {
        None
    }
}

// ---------------------------------------------------------------------------
// Lookups by name (the first entry of a name wins, as in a map built in order)

/// `k` is the first position of `x` in `names`.
pub open spec fn is_first(names: Seq<Seq<char>>, x: Seq<char>, k: int) -> bool {
    &&& 0 <= k < names.len()
    &&& names[k] == x
    &&& forall|j: int| 0 <= j < k ==> names[j] != x
}

/// The first position of `x` in `names`.
pub open spec fn first_index(names: Seq<Seq<char>>, x: Seq<char>) -> Option<int> {
    if exists|k: int| is_first(names, x, k) {
        Some(choose|k: int| is_first(names, x, k))
    } else {
        None
    }
}

/// An executable index agrees with a spec index.
pub open spec fn same_index(r: Option<usize>, s: Option<int>) -> bool {
    match r {
        Some(k) => s == Some(k as int),
        None => s is None,
    }
}

pub open spec fn cell_names(lib: Lib) -> Seq<Seq<char>> {
    lib.cells@.map_values(|c: Cell| c.name@)
}

pub open spec fn pin_names(cell: Cell) -> Seq<Seq<char>> {
    cell.pins@.map_values(|p: crate::liberty::Pin| p.name@)
}

pub open spec fn conn_pins(inst: Inst) -> Seq<Seq<char>> {
    inst.conns@.map_values(|c: (String, String)| c.0@)
}

pub open spec fn strings(v: Seq<String>) -> Seq<Seq<char>> {
    v.map_values(|s: String| s@)
}

/// The net on `pin` of `inst` (its first connection to that pin).
pub open spec fn net_of_spec(inst: Inst, pin: Seq<char>) -> Option<Seq<char>> {
    match first_index(conn_pins(inst), pin) {
        Some(j) => Some(inst.conns@[j].1@),
        None => None,
    }
}

/// The nets that `insts` connect, instance by instance, connection by connection.
pub open spec fn conn_nets(insts: Seq<Inst>) -> Seq<Seq<char>>
    decreases insts.len(),
{
    if insts.len() == 0 {
        Seq::empty()
    } else {
        conn_nets(insts.drop_last()) + insts.last().conns@.map_values(|c: (String, String)| c.1@)
    }
}

/// Every net name a netlist mentions: its inputs, its outputs and the nets its
/// instances connect.
pub open spec fn net_names(nl: Netlist) -> Seq<Seq<char>> {
    strings(nl.inputs@) + strings(nl.outputs@) + conn_nets(nl.insts@)
}

/// The free nets that a netlist names: the variables its functions range over.
pub open spec fn free_nets(nl: Netlist, lib: Lib) -> Set<Seq<char>> {
    Set::new(|x: Seq<char>| net_names(nl).contains(x) && is_free(nl, lib, x))
}

/// The free nets either design names: the variables of the check.
pub open spec fn free_names(golden: Netlist, revised: Netlist, lib: Lib) -> Set<Seq<char>> {
    free_nets(golden, lib).union(free_nets(revised, lib))
}

/// Every name of `new` is a name of `old` or of `pool`.
pub open spec fn drawn_from(new: Seq<Seq<char>>, old: Seq<Seq<char>>, pool: Set<Seq<char>>) -> bool {
    forall|x: Seq<char>| #[trigger] new.contains(x) ==> old.contains(x) || pool.contains(x)
}

proof fn lemma_conn_net(insts: Seq<Inst>, i: int, j: int)
    requires
        0 <= i < insts.len(),
        0 <= j < insts[i].conns@.len(),
    ensures
        conn_nets(insts).contains(insts[i].conns@[j].1@),
    decreases insts.len(),
{
    let s = conn_nets(insts.drop_last());
    let t = insts.last().conns@.map_values(|c: (String, String)| c.1@);
    assert(conn_nets(insts) == s + t);
    if i == insts.len() - 1 {
        assert((s + t)[s.len() + j] == t[j]);
    } else {
        lemma_conn_net(insts.drop_last(), i, j);
        assert(insts.drop_last()[i] == insts[i]);
        let k = choose|k: int| 0 <= k < s.len() && s[k] == insts[i].conns@[j].1@;
        assert((s + t)[k] == s[k]);
    }
}

/// The net on a pin of an instance is one of the netlist's names.
proof fn lemma_net_of_named(nl: Netlist, i: int, pin: Seq<char>, x: Seq<char>)
    requires
        0 <= i < nl.insts@.len(),
        net_of_spec(nl.insts@[i], pin) == Some(x),
    ensures
        net_names(nl).contains(x),
{
    let names = conn_pins(nl.insts@[i]);
    let j = choose|k: int| is_first(names, pin, k);
    assert(is_first(names, pin, j));
    lemma_conn_net(nl.insts@, i, j);
    let a = strings(nl.inputs@) + strings(nl.outputs@);
    let c = conn_nets(nl.insts@);
    let k = choose|k: int| 0 <= k < c.len() && c[k] == x;
    assert((a + c)[a.len() + k] == x);
}

/// An endpoint is one of the netlist's names.
proof fn lemma_endpoint_named(nl: Netlist, lib: Lib, x: Seq<char>)
    requires
        is_endpoint(nl, lib, x),
    ensures
        net_names(nl).contains(x),
{
    let a = strings(nl.inputs@);
    let b = strings(nl.outputs@);
    let c = conn_nets(nl.insts@);
    if b.contains(x) {
        let k = choose|k: int| 0 <= k < b.len() && b[k] == x;
        assert((a + b + c)[a.len() + k] == x);
    } else {
        let (i, q) = choose|i: int, q: int| #[trigger] reg_data(nl, lib, i, q, x);
        let c0 = first_index(cell_names(lib), nl.insts@[i].cell@).unwrap();
        lemma_net_of_named(nl, i, lib.cells@[c0].pins@[q].name@, x);
    }
}

/// An input of the netlist is one of its names.
proof fn lemma_input_named(nl: Netlist, k: int)
    requires
        0 <= k < nl.inputs@.len(),
    ensures
        net_names(nl).contains(nl.inputs@[k]@),
{
    let a = strings(nl.inputs@);
    let b = strings(nl.outputs@);
    let c = conn_nets(nl.insts@);
    assert((a + b + c)[k] == a[k]);
}

/// Names without repeats drawn from `pool` are no more than its distinct names.
proof fn lemma_drawn_trans(a: Seq<Seq<char>>, b: Seq<Seq<char>>, c: Seq<Seq<char>>, p: Set<Seq<char>>, q: Set<Seq<char>>)
    requires
        drawn_from(b, a, p),
        drawn_from(c, b, q),
    ensures
        drawn_from(c, a, p.union(q)),
{
}

/// The free names of two designs are finitely many.
proof fn lemma_free_names_finite(golden: Netlist, revised: Netlist, lib: Lib)
    ensures
        free_names(golden, revised, lib).finite(),
{
    let all = (net_names(golden) + net_names(revised)).to_set();
    assert forall|x: Seq<char>| #[trigger] free_names(golden, revised, lib).contains(x) implies all.contains(x) by {
        let p = net_names(golden);
        let q = net_names(revised);
        if free_nets(golden, lib).contains(x) {
            let k = choose|k: int| 0 <= k < p.len() && p[k] == x;
            assert((p + q)[k] == x);
        } else {
            let k = choose|k: int| 0 <= k < q.len() && q[k] == x;
            assert((p + q)[p.len() + k] == x);
        }
    }
    vstd::set_lib::lemma_len_subset(free_names(golden, revised, lib), all);
}

/// Names without repeats drawn from a finite `pool` are no more than it holds.
proof fn lemma_drawn_len(names: Seq<Seq<char>>, pool: Set<Seq<char>>)
    requires
        names.no_duplicates(),
        drawn_from(names, Seq::empty(), pool),
        pool.finite(),
    ensures
        names.len() <= pool.len(),
{
    names.unique_seq_to_set();
    assert(names.to_set().subset_of(pool)) by {
        assert forall|x: Seq<char>| #[trigger] names.to_set().contains(x) implies pool.contains(x) by {
            assert(names.contains(x));
        }
    }
    vstd::set_lib::lemma_len_subset(names.to_set(), pool);
}

proof fn lemma_first_index(names: Seq<Seq<char>>, x: Seq<char>, k: int)
    requires
        is_first(names, x, k),
    ensures
        first_index(names, x) == Some(k),
{
    let c = choose|k: int| is_first(names, x, k);
    assert(is_first(names, x, c));
    if c < k {
        assert(names[c] != x);
    }
    if k < c {
        assert(names[k] != x);
    }
}

fn find_cell(lib: &Lib, name: &String) -> (r: Option<usize>)
    ensures
        same_index(r, first_index(cell_names(*lib), name@)),
        r matches Some(k) ==> k < lib.cells@.len(),
{
    let ghost names = cell_names(*lib);
    let mut k: usize = 0;
    while k < lib.cells.len()
        invariant
            k <= lib.cells@.len(),
            names == cell_names(*lib),
            forall|j: int| 0 <= j < k ==> names[j] != name@,
        decreases lib.cells@.len() - k,
    {
        if lib.cells[k].name == *name {
            proof {
                lemma_first_index(names, name@, k as int);
            }
            return Some(k);
        }
        k += 1;
    }
    None
}

fn find_pin(cell: &Cell, name: &String) -> (r: Option<usize>)
    ensures
        same_index(r, first_index(pin_names(*cell), name@)),
        r matches Some(k) ==> k < cell.pins@.len(),
{
    let ghost names = pin_names(*cell);
    let mut k: usize = 0;
    while k < cell.pins.len()
        invariant
            k <= cell.pins@.len(),
            names == pin_names(*cell),
            forall|j: int| 0 <= j < k ==> names[j] != name@,
        decreases cell.pins@.len() - k,
    {
        if cell.pins[k].name == *name {
            proof {
                lemma_first_index(names, name@, k as int);
            }
            return Some(k);
        }
        k += 1;
    }
    None
}

/// The net connected to `pin` of `inst`, if any.
fn net_of<'a>(inst: &'a Inst, pin: &String) -> (r: Option<&'a String>)
    ensures
        r matches Some(n) ==> net_of_spec(*inst, pin@) == Some(n@),
        r is None ==> net_of_spec(*inst, pin@) is None,
{
    let ghost names = conn_pins(*inst);
    let mut k: usize = 0;
    while k < inst.conns.len()
        invariant
            k <= inst.conns@.len(),
            names == conn_pins(*inst),
            forall|j: int| 0 <= j < k ==> names[j] != pin@,
        decreases inst.conns@.len() - k,
    {
        if inst.conns[k].0 == *pin {
            proof {
                lemma_first_index(names, pin@, k as int);
            }
            return Some(&inst.conns[k].1);
        }
        k += 1;
    }
    None
}

fn contains_string(v: &Vec<String>, x: &String) -> (b: bool)
    ensures
        b == strings(v@).contains(x@),
{
    let mut k: usize = 0;
    while k < v.len()
        invariant
            k <= v@.len(),
            forall|j: int| 0 <= j < k ==> strings(v@)[j] != x@,
        decreases v@.len() - k,
    {
        if v[k] == *x {
            assert(strings(v@)[k as int] == x@);
            return true;
        }
        k += 1;
    }
    false
}

// ---------------------------------------------------------------------------
// Drivers: which instance output pin drives each net

/// `pin` is an output pin of `cell`.
pub open spec fn is_out_pin(cell: Cell, pin: Seq<char>) -> bool {
    match first_index(pin_names(cell), pin) {
        Some(q) => cell.pins@[q].direction == Dir::Out,
        None => false,
    }
}

/// The `(instance, connection)` pairs among the first `j` connections of
/// instance `i` (of cell `cell`) that attach an output pin.
pub open spec fn conn_entries(inst: Inst, cell: Cell, i: usize, j: int) -> Seq<(usize, usize)>
    decreases j,
{
    if j <= 0 {
        Seq::empty()
    } else {
        let prev = conn_entries(inst, cell, i, j - 1);
        if is_out_pin(cell, inst.conns@[j - 1].0@) {
            prev.push((i, (j - 1) as usize))
        } else {
            prev
        }
    }
}

pub open spec fn inst_entries(nl: Netlist, lib: Lib, i: int) -> Seq<(usize, usize)> {
    let inst = nl.insts@[i];
    match first_index(cell_names(lib), inst.cell@) {
        Some(c) => conn_entries(inst, lib.cells@[c], i as usize, inst.conns@.len() as int),
        None => Seq::empty(),
    }
}

pub open spec fn entries_upto(nl: Netlist, lib: Lib, i: int) -> Seq<(usize, usize)>
    decreases i,
{
    if i <= 0 {
        Seq::empty()
    } else {
        entries_upto(nl, lib, i - 1) + inst_entries(nl, lib, i - 1)
    }
}

/// Every output-pin connection of every instance of a known cell, in order.
pub open spec fn driver_entries(nl: Netlist, lib: Lib) -> Seq<(usize, usize)> {
    entries_upto(nl, lib, nl.insts@.len() as int)
}

pub open spec fn entry_net(nl: Netlist, en: (usize, usize)) -> Seq<char> {
    nl.insts@[en.0 as int].conns@[en.1 as int].1@
}

pub open spec fn entries_in_range(nl: Netlist, es: Seq<(usize, usize)>) -> bool {
    forall|e: int|
        0 <= e < es.len() ==> (#[trigger] es[e]).0 < nl.insts@.len() && es[e].1
            < nl.insts@[es[e].0 as int].conns@.len()
}

/// `e` is the last entry that drives `net` (a later driver overrides an earlier one).
pub open spec fn is_last(nl: Netlist, es: Seq<(usize, usize)>, net: Seq<char>, e: int) -> bool {
    &&& 0 <= e < es.len()
    &&& entry_net(nl, es[e]) == net
    &&& forall|e2: int| e < e2 < es.len() ==> entry_net(nl, #[trigger] es[e2]) != net
}

/// The driver entry of `net`.
pub open spec fn driver(nl: Netlist, lib: Lib, net: Seq<char>) -> Option<int> {
    let es = driver_entries(nl, lib);
    if exists|e: int| is_last(nl, es, net, e) {
        Some(choose|e: int| is_last(nl, es, net, e))
    } else {
        None
    }
}

proof fn lemma_conn_entries_range(inst: Inst, cell: Cell, i: usize, j: int)
    requires
        0 <= j <= inst.conns@.len(),
    ensures
        forall|e: int|
            0 <= e < conn_entries(inst, cell, i, j).len() ==> (#[trigger] conn_entries(
                inst,
                cell,
                i,
                j,
            )[e]).0 == i && conn_entries(inst, cell, i, j)[e].1 < j,
    decreases j,
{
    if j > 0 {
        lemma_conn_entries_range(inst, cell, i, j - 1);
        let prev = conn_entries(inst, cell, i, j - 1);
        let cur = conn_entries(inst, cell, i, j);
        assert(inst.conns.len() == inst.conns@.len());
        assert forall|e: int| 0 <= e < cur.len() implies (#[trigger] cur[e]).0 == i && cur[e].1 < j by {
            if e < prev.len() {
                assert(cur[e] == prev[e]);
            }
        }
    }
}

proof fn lemma_entries_range(nl: Netlist, lib: Lib, i: int)
    requires
        0 <= i <= nl.insts@.len(),
    ensures
        entries_in_range(nl, entries_upto(nl, lib, i)),
    decreases i,
{
    if i > 0 {
        lemma_entries_range(nl, lib, i - 1);
        let inst = nl.insts@[i - 1];
        let prev = entries_upto(nl, lib, i - 1);
        let cur = inst_entries(nl, lib, i - 1);
        assert(nl.insts.len() == nl.insts@.len());
        match first_index(cell_names(lib), inst.cell@) {
            Some(c) => {
                lemma_conn_entries_range(inst, lib.cells@[c], (i - 1) as usize, inst.conns@.len() as int);
            },
            None => {},
        }
        assert forall|e: int| 0 <= e < entries_upto(nl, lib, i).len() implies (#[trigger] entries_upto(
            nl,
            lib,
            i,
        )[e]).0 < nl.insts@.len() && entries_upto(nl, lib, i)[e].1 < nl.insts@[entries_upto(
            nl,
            lib,
            i,
        )[e].0 as int].conns@.len() by {
            if e < prev.len() {
                assert(entries_upto(nl, lib, i)[e] == prev[e]);
            } else {
                assert(entries_upto(nl, lib, i)[e] == cur[e - prev.len()]);
            }
        }
    }
}

/// One design's view: the driver entry of every net.
struct Design<'a> {
    nl: &'a Netlist,
    lib: &'a Lib,
    driver: Vec<(usize, usize)>,
}

impl<'a> Design<'a> {
    spec fn wf(&self) -> bool {
        &&& self.driver@ == driver_entries(*self.nl, *self.lib)
        &&& entries_in_range(*self.nl, self.driver@)
    }

    fn new(nl: &'a Netlist, lib: &'a Lib) -> (d: Design<'a>)
        ensures
            d.wf(),
            d.nl == nl,
            d.lib == lib,
    {
        let mut driver: Vec<(usize, usize)> = Vec::new();
        let mut i: usize = 0;
        while i < nl.insts.len()
            invariant
                i <= nl.insts@.len(),
                driver@ == entries_upto(*nl, *lib, i as int),
            decreases nl.insts@.len() - i,
        {
            let inst = &nl.insts[i];
            let ghost prev = driver@;
            match find_cell(lib, &inst.cell) {
                Some(c) => {
                    let cell = &lib.cells[c];
                    let mut j: usize = 0;
                    while j < inst.conns.len()
                        invariant
                            i < nl.insts@.len(),
                            *inst == nl.insts@[i as int],
                            c < lib.cells@.len(),
                            *cell == lib.cells@[c as int],
                            j <= inst.conns@.len(),
                            driver@ == prev + conn_entries(*inst, *cell, i, j as int),
                        decreases inst.conns@.len() - j,
                    {
                        match find_pin(cell, &inst.conns[j].0) {
                            Some(q) => {
                                if cell.pins[q].direction == Dir::Out {
                                    driver.push((i, j));
                                    assert(driver@ =~= prev + conn_entries(*inst, *cell, i, j + 1));
                                }
                            },
                            None => {},
                        }
                        j += 1;
                    }
                },
                None => {},
            }
            assert(driver@ =~= entries_upto(*nl, *lib, i + 1));
            i += 1;
        }
        proof {
            lemma_entries_range(*nl, *lib, nl.insts@.len() as int);
        }
        Design { nl, lib, driver }
    }

    /// The driver entry of `net` (the last one recorded).
    fn driver_of(&self, net: &String) -> (r: Option<usize>)
        requires
            self.wf(),
        ensures
            same_index(r, driver(*self.nl, *self.lib, net@)),
    {
        let ghost es = self.driver@;
        let mut e = self.driver.len();
        while e > 0
            invariant
                self.wf(),
                es == self.driver@,
                e <= es.len(),
                forall|e2: int| e <= e2 < es.len() ==> entry_net(*self.nl, #[trigger] es[e2]) != net@,
            decreases e,
        {
            e -= 1;
            let (i, j) = self.driver[e];
            assert(es[e as int] == (i, j));
            if self.nl.insts[i].conns[j].1 == *net {
                proof {
                    assert(is_last(*self.nl, es, net@, e as int));
                    let c = choose|x: int| is_last(*self.nl, es, net@, x);
                    assert(is_last(*self.nl, es, net@, c));
                    if c < e {
                        assert(entry_net(*self.nl, es[e as int]) != net@);
                    }
                    if c > e {
                        assert(entry_net(*self.nl, es[c]) != net@);
                    }
                }
                return Some(e);
            }
        }
        proof {
            if exists|x: int| is_last(*self.nl, es, net@, x) {
                let c = choose|x: int| is_last(*self.nl, es, net@, x);
                assert(entry_net(*self.nl, es[c]) != net@);
            }
        }
        None
    }
}

// ---------------------------------------------------------------------------
// The function a net computes

/// `net` is a primary input.
pub open spec fn is_input(nl: Netlist, net: Seq<char>) -> bool {
    strings(nl.inputs@).contains(net)
}

/// The driver entry `en` belongs to a sequential cell (a register output).
pub open spec fn seq_driven(nl: Netlist, lib: Lib, en: (usize, usize)) -> bool {
    match first_index(cell_names(lib), nl.insts@[en.0 as int].cell@) {
        Some(c) => lib.cells@[c].is_seq,
        None => false,
    }
}

/// A free net: a primary input, an undriven net, or a register output. Each
/// free net is one variable of the design's functions.
pub open spec fn is_free(nl: Netlist, lib: Lib, net: Seq<char>) -> bool {
    is_input(nl, net) || match driver(nl, lib, net) {
        None => true,
        Some(e) => seq_driven(nl, lib, driver_entries(nl, lib)[e]),
    }
}

/// `name` is the clock pin of `cell`.
pub open spec fn is_clock(cell: Cell, name: Seq<char>) -> bool {
    match cell.clock_pin {
        Some(ck) => ck@ == name,
        None => false,
    }
}

/// The `(pin, net)` inputs of `inst` among the first `q` pins of its cell: the
/// connected input pins, the clock pin left out.
pub open spec fn gate_ins(inst: Inst, cell: Cell, q: int) -> Seq<(Seq<char>, Seq<char>)>
    decreases q,
{
    if q <= 0 {
        Seq::empty()
    } else {
        let prev = gate_ins(inst, cell, q - 1);
        let p = cell.pins@[q - 1];
        if p.direction == Dir::In && !is_clock(cell, p.name@) {
            match net_of_spec(inst, p.name@) {
                Some(n) => prev.push((p.name@, n)),
                None => prev,
            }
        } else {
            prev
        }
    }
}

/// The driving cell of `net`: its primitive and its `(pin, net)` inputs.
pub open spec fn gate_of(nl: Netlist, lib: Lib, net: Seq<char>) -> Option<
    (Op, Seq<(Seq<char>, Seq<char>)>),
> {
    match driver(nl, lib, net) {
        Some(e) => {
            let inst = nl.insts@[driver_entries(nl, lib)[e].0 as int];
            match (first_index(cell_names(lib), inst.cell@), spec_op_of(inst.cell@)) {
                (Some(c), Some(op)) => Some(
                    (op, gate_ins(inst, lib.cells@[c], lib.cells@[c].pins@.len() as int)),
                ),
                _ => None,
            }
        },
        None => None,
    }
}

pub open spec fn pin_part(ins: Seq<(Seq<char>, Seq<char>)>) -> Seq<Seq<char>> {
    ins.map_values(|pn: (Seq<char>, Seq<char>)| pn.0)
}

pub open spec fn net_part(ins: Seq<(Seq<char>, Seq<char>)>) -> Seq<Seq<char>> {
    ins.map_values(|pn: (Seq<char>, Seq<char>)| pn.1)
}

/// A pin named `want` up to ASCII case: one character, equal to `want` in upper case.
pub open spec fn pin_is(p: Seq<char>, want: char) -> bool {
    p.len() == 1 && upper_char(p[0]) == want
}

pub open spec fn is_first_pin(pins: Seq<Seq<char>>, want: char, k: int) -> bool {
    &&& 0 <= k < pins.len()
    &&& pin_is(pins[k], want)
    &&& forall|j: int| 0 <= j < k ==> !pin_is(pins[j], want)
}

/// The position of the first pin named `want` (up to ASCII case).
pub open spec fn pin_pos(pins: Seq<Seq<char>>, want: char) -> Option<int> {
    if exists|k: int| is_first_pin(pins, want, k) {
        Some(choose|k: int| is_first_pin(pins, want, k))
    } else {
        None
    }
}

/// Left fold of `vals` with AND, OR or XOR (an empty fold is false).
pub open spec fn fold_bool(op: Op, vals: Seq<bool>) -> bool
    decreases vals.len(),
{
    if vals.len() == 0 {
        false
    } else if vals.len() == 1 {
        vals[0]
    } else {
        let acc = fold_bool(op, vals.drop_last());
        match op {
            Op::And => acc && vals.last(),
            Op::Or => acc || vals.last(),
            _ => acc != vals.last(),
        }
    }
}

/// `op` applies to `n` inputs on these pins.
pub open spec fn op_shape_ok(op: Op, n: nat, pins: Seq<Seq<char>>) -> bool {
    match op {
        Op::Buf | Op::Not => n == 1,
        Op::Mux => n == 3 && pin_pos(pins, 'A') is Some && pin_pos(pins, 'B') is Some && pin_pos(
            pins,
            'S',
        ) is Some,
        _ => n >= 1,
    }
}

/// The output of primitive `op` on input values `vals` (on pins `pins`); `None`
/// when the primitive does not apply to these inputs. A MUX is `S ? B : A`.
pub open spec fn op_value(op: Op, vals: Seq<bool>, pins: Seq<Seq<char>>) -> Option<bool> {
    if !op_shape_ok(op, vals.len(), pins) {
        None
    } else {
        match op {
            Op::Buf => Some(vals[0]),
            Op::Not => Some(!vals[0]),
            Op::Mux => Some(
                if vals[pin_pos(pins, 'S').unwrap()] {
                    vals[pin_pos(pins, 'B').unwrap()]
                } else {
                    vals[pin_pos(pins, 'A').unwrap()]
                },
            ),
            Op::And => Some(fold_bool(Op::And, vals)),
            Op::Nand => Some(!fold_bool(Op::And, vals)),
            Op::Or => Some(fold_bool(Op::Or, vals)),
            Op::Nor => Some(!fold_bool(Op::Or, vals)),
            Op::Xor => Some(fold_bool(Op::Xor, vals)),
            Op::Xnor => Some(!fold_bool(Op::Xor, vals)),
        }
    }
}

/// Upper-casing maps each ASCII lower-case letter to its capital, 32 code points
/// lower, and leaves every other character as it is.
pub proof fn lemma_upper_char_ascii(c: char)
    ensures
        'a' <= c <= 'z' ==> 'A' <= upper_char(c) <= 'Z' && upper_char(c) as u32 + 32 == c as u32,
        !('a' <= c <= 'z') ==> upper_char(c) == c,
{
}

/// The primitive map reads lower-case cell names as their capitals.
pub proof fn lemma_op_of_lower_case()
    ensures
        spec_op_of(seq!['x', 'o', 'r', '2']) == Some(Op::Xor),
        spec_op_of(seq!['x', 'n', 'o', 'r', '2']) == Some(Op::Xnor),
        spec_op_of(seq!['n', 'a', 'n', 'd', '2']) == Some(Op::Nand),
        spec_op_of(seq!['n', 'o', 'r', '2']) == Some(Op::Nor),
        spec_op_of(seq!['m', 'u', 'x', '2']) == Some(Op::Mux),
        spec_op_of(seq!['i', 'n', 'v']) == Some(Op::Not),
{
    let w1 = seq!['x', 'o', 'r', '2'];
    assert(upper(w1) =~= seq!['X', 'O', 'R', '2']);
    assert(upper(w1).subrange(0, 3) =~= seq!['X', 'O', 'R']);
    assert(!has_word(upper(w1), seq!['X', 'N', 'O', 'R']));
    assert(!has_word(upper(w1), seq!['N', 'A', 'N', 'D']));
    assert(has_word(upper(w1), seq!['X', 'O', 'R'])) by {
        let xo = seq!['X', 'O', 'R'];
        assert(xo.len() == 3);
        assert(upper(w1).len() == 4);
        assert(upper(w1).subrange(0, 0int + xo.len()) =~= xo);
    }
    let w2 = seq!['x', 'n', 'o', 'r', '2'];
    assert(upper(w2) =~= seq!['X', 'N', 'O', 'R', '2']);
    assert(upper(w2).subrange(0, 4) =~= seq!['X', 'N', 'O', 'R']);
    assert(has_word(upper(w2), seq!['X', 'N', 'O', 'R'])) by {
        let xn = seq!['X', 'N', 'O', 'R'];
        assert(xn.len() == 4);
        assert(upper(w2).len() == 5);
        assert(upper(w2).subrange(0, 0int + xn.len()) =~= xn);
    }
    let w3 = seq!['n', 'a', 'n', 'd', '2'];
    assert(upper(w3) =~= seq!['N', 'A', 'N', 'D', '2']);
    assert(upper(w3).subrange(0, 4) =~= seq!['N', 'A', 'N', 'D']);
    assert(!has_word(upper(w3), seq!['X', 'N', 'O', 'R']));
    let w4 = seq!['n', 'o', 'r', '2'];
    assert(upper(w4) =~= seq!['N', 'O', 'R', '2']);
    assert(upper(w4).subrange(0, 3) =~= seq!['N', 'O', 'R']);
    assert(!has_word(upper(w4), seq!['X', 'N', 'O', 'R']));
    assert(!has_word(upper(w4), seq!['N', 'A', 'N', 'D']));
    assert(!has_word(upper(w4), seq!['X', 'O', 'R']));
    let w5 = seq!['m', 'u', 'x', '2'];
    assert(upper(w5) =~= seq!['M', 'U', 'X', '2']);
    assert(upper(w5).subrange(0, 3) =~= seq!['M', 'U', 'X']);
    assert(!has_word(upper(w5), seq!['X', 'N', 'O', 'R']));
    assert(!has_word(upper(w5), seq!['N', 'A', 'N', 'D']));
    assert(!has_word(upper(w5), seq!['X', 'O', 'R']));
    assert(!has_word(upper(w5), seq!['N', 'O', 'R']));
    let w6 = seq!['i', 'n', 'v'];
    assert(upper(w6) =~= seq!['I', 'N', 'V']);
    assert(upper(w6).subrange(0, 3) =~= seq!['I', 'N', 'V']);
    assert(!has_word(upper(w6), seq!['X', 'N', 'O', 'R']));
    assert(!has_word(upper(w6), seq!['N', 'A', 'N', 'D']));
    assert(!has_word(upper(w6), seq!['X', 'O', 'R']));
    assert(!has_word(upper(w6), seq!['N', 'O', 'R']));
    assert(!has_word(upper(w6), seq!['M', 'U', 'X']));
}

proof fn lemma_first_pin_unique(pins: Seq<Seq<char>>, want: char, k: int)
    requires
        is_first_pin(pins, want, k),
    ensures
        pin_pos(pins, want) == Some(k),
{
    let c = choose|j: int| is_first_pin(pins, want, j);
    assert(is_first_pin(pins, want, c));
    if c < k {
        assert(!pin_is(pins[c], want));
    }
    if k < c {
        assert(!pin_is(pins[k], want));
    }
}

/// A MUX is `S ? B : A`: with its pins named A, B and S (in either case, in
/// this order or with S first), its output is the value on B when the value on
/// S is true and the value on A otherwise.
pub proof fn lemma_mux_selects(a: bool, b: bool, s: bool)
    ensures
        op_value(Op::Mux, seq![a, b, s], seq![seq!['A'], seq!['B'], seq!['S']]) == Some(if s { b } else { a }),
        op_value(Op::Mux, seq![a, b, s], seq![seq!['a'], seq!['b'], seq!['s']]) == Some(if s { b } else { a }),
        op_value(Op::Mux, seq![s, a, b], seq![seq!['S'], seq!['A'], seq!['B']]) == Some(if s { b } else { a }),
{
    let p1 = seq![seq!['A'], seq!['B'], seq!['S']];
    lemma_first_pin_unique(p1, 'A', 0);
    lemma_first_pin_unique(p1, 'B', 1);
    lemma_first_pin_unique(p1, 'S', 2);
    let p2 = seq![seq!['a'], seq!['b'], seq!['s']];
    lemma_first_pin_unique(p2, 'A', 0);
    lemma_first_pin_unique(p2, 'B', 1);
    lemma_first_pin_unique(p2, 'S', 2);
    let p3 = seq![seq!['S'], seq!['A'], seq!['B']];
    lemma_first_pin_unique(p3, 'S', 0);
    lemma_first_pin_unique(p3, 'A', 1);
    lemma_first_pin_unique(p3, 'B', 2);
}

/// Any number of inputs: an AND gate is true exactly when every input is true,
/// an OR gate exactly when some input is, and NAND and NOR are their negations.
pub proof fn lemma_and_or_gates(vals: Seq<bool>, pins: Seq<Seq<char>>)
    requires
        vals.len() >= 1,
    ensures
        op_value(Op::And, vals, pins) == Some(forall|i: int| 0 <= i < vals.len() ==> #[trigger] vals[i]),
        op_value(Op::Nand, vals, pins) == Some(!(forall|i: int| 0 <= i < vals.len() ==> #[trigger] vals[i])),
        op_value(Op::Or, vals, pins) == Some(exists|i: int| 0 <= i < vals.len() && #[trigger] vals[i]),
        op_value(Op::Nor, vals, pins) == Some(!(exists|i: int| 0 <= i < vals.len() && #[trigger] vals[i])),
    decreases vals.len(),
{
    if vals.len() > 1 {
        let init = vals.drop_last();
        lemma_and_or_gates(init, pins);
        assert(fold_bool(Op::And, init) == (forall|i: int| 0 <= i < init.len() ==> #[trigger] init[i]));
        assert(fold_bool(Op::Or, init) == (exists|i: int| 0 <= i < init.len() && #[trigger] init[i]));
        if forall|i: int| 0 <= i < vals.len() ==> #[trigger] vals[i] {
            assert forall|i: int| 0 <= i < init.len() implies #[trigger] init[i] by {
                assert(init[i] == vals[i]);
            }
        } else {
            let j = choose|j: int| 0 <= j < vals.len() && !vals[j];
            if j < init.len() {
                assert(!init[j]);
            }
        }
        if exists|i: int| 0 <= i < vals.len() && #[trigger] vals[i] {
            let j = choose|j: int| 0 <= j < vals.len() && vals[j];
            if j < init.len() {
                assert(init[j]);
            }
        } else {
            assert forall|i: int| 0 <= i < init.len() implies !#[trigger] init[i] by {
                assert(init[i] == vals[i]);
            }
        }
    }
}

/// Two-input XOR is true exactly when its inputs differ, XNOR when they agree;
/// an inverter negates and a buffer copies.
pub proof fn lemma_xor_inv_buf_gates(a: bool, b: bool, pins: Seq<Seq<char>>)
    ensures
        op_value(Op::Xor, seq![a, b], pins) == Some(a != b),
        op_value(Op::Xnor, seq![a, b], pins) == Some(a == b),
        op_value(Op::Not, seq![a], pins) == Some(!a),
        op_value(Op::Buf, seq![a], pins) == Some(a),
{
    assert(seq![a, b].drop_last() =~= seq![a]);
    assert(fold_bool(Op::Xor, seq![a]) == a);
    assert(fold_bool(Op::Xor, seq![a, b]) == (fold_bool(Op::Xor, seq![a]) != b));
}

/// The value of `net` when each free net `m` is `a(m)`, looking at most `fuel`
/// gates deep; `None` past the fuel or where a gate is not a known primitive.
pub open spec fn net_val(
    nl: Netlist,
    lib: Lib,
    net: Seq<char>,
    a: spec_fn(Seq<char>) -> bool,
    fuel: nat,
) -> Option<bool>
    decreases fuel, 0nat,
{
    if is_free(nl, lib, net) {
        Some(a(net))
    } else if fuel == 0 {
        None
    } else {
        match gate_of(nl, lib, net) {
            Some((op, ins)) => match vals_of(nl, lib, net_part(ins), a, (fuel - 1) as nat) {
                Some(vs) => op_value(op, vs, pin_part(ins)),
                None => None,
            },
            None => None,
        }
    }
}

/// The values of `nets`, each looked at with `fuel`.
pub open spec fn vals_of(
    nl: Netlist,
    lib: Lib,
    nets: Seq<Seq<char>>,
    a: spec_fn(Seq<char>) -> bool,
    fuel: nat,
) -> Option<Seq<bool>>
    decreases fuel, nets.len() + 1,
{
    if nets.len() == 0 {
        Some(Seq::empty())
    } else {
        match (vals_of(nl, lib, nets.drop_last(), a, fuel), net_val(nl, lib, nets.last(), a, fuel)) {
            (Some(vs), Some(x)) => Some(vs.push(x)),
            _ => None,
        }
    }
}

/// The boolean function of `net`: its value under the free-net assignment `a`,
/// or `None` where its cone has a combinational loop or a gate that is not a
/// known primitive.
pub open spec fn net_value(nl: Netlist, lib: Lib, net: Seq<char>, a: spec_fn(Seq<char>) -> bool) -> Option<
    bool,
> {
    if exists|fuel: nat| (#[trigger] net_val(nl, lib, net, a, fuel)) is Some {
        net_val(nl, lib, net, a, choose|fuel: nat| (#[trigger] net_val(nl, lib, net, a, fuel)) is Some)
    } else {
        None
    }
}

proof fn lemma_val_mono(
    nl: Netlist,
    lib: Lib,
    net: Seq<char>,
    a: spec_fn(Seq<char>) -> bool,
    f1: nat,
    f2: nat,
)
    requires
        f1 <= f2,
        net_val(nl, lib, net, a, f1) is Some,
    ensures
        net_val(nl, lib, net, a, f2) == net_val(nl, lib, net, a, f1),
    decreases f1, 0nat,
{
    if !is_free(nl, lib, net) && f1 > 0 {
        match gate_of(nl, lib, net) {
            Some((op, ins)) => {
                lemma_vals_mono(nl, lib, net_part(ins), a, (f1 - 1) as nat, (f2 - 1) as nat);
            },
            None => {},
        }
    }
}

proof fn lemma_vals_mono(
    nl: Netlist,
    lib: Lib,
    nets: Seq<Seq<char>>,
    a: spec_fn(Seq<char>) -> bool,
    f1: nat,
    f2: nat,
)
    requires
        f1 <= f2,
        vals_of(nl, lib, nets, a, f1) is Some,
    ensures
        vals_of(nl, lib, nets, a, f2) == vals_of(nl, lib, nets, a, f1),
    decreases f1, nets.len() + 1,
{
    if nets.len() > 0 {
        lemma_vals_mono(nl, lib, nets.drop_last(), a, f1, f2);
        lemma_val_mono(nl, lib, nets.last(), a, f1, f2);
    }
}

/// A value found with some fuel is the net's value.
proof fn lemma_value_of_fuel(
    nl: Netlist,
    lib: Lib,
    net: Seq<char>,
    a: spec_fn(Seq<char>) -> bool,
    fuel: nat,
)
    requires
        net_val(nl, lib, net, a, fuel) is Some,
    ensures
        net_value(nl, lib, net, a) == net_val(nl, lib, net, a, fuel),
{
    let c = choose|f: nat| (#[trigger] net_val(nl, lib, net, a, f)) is Some;
    assert(net_val(nl, lib, net, a, c) is Some);
    if c <= fuel {
        lemma_val_mono(nl, lib, net, a, c, fuel);
    } else {
        lemma_val_mono(nl, lib, net, a, fuel, c);
    }
}

/// Nets that all have values have them together with one fuel.
proof fn lemma_common_fuel(
    nl: Netlist,
    lib: Lib,
    nets: Seq<Seq<char>>,
    xs: Seq<bool>,
    a: spec_fn(Seq<char>) -> bool,
) -> (fuel: nat)
    requires
        nets.len() == xs.len(),
        forall|k: int| 0 <= k < nets.len() ==> net_value(nl, lib, #[trigger] nets[k], a) == Some(xs[k]),
    ensures
        vals_of(nl, lib, nets, a, fuel) == Some(xs),
    decreases nets.len(),
{
    if nets.len() == 0 {
        assert(xs =~= Seq::<bool>::empty());
        0
    } else {
        let n = nets.len() - 1;
        assert forall|k: int| 0 <= k < nets.drop_last().len() implies net_value(
            nl,
            lib,
            #[trigger] nets.drop_last()[k],
            a,
        ) == Some(xs.drop_last()[k]) by {
            assert(nets.drop_last()[k] == nets[k]);
        }
        let f1 = lemma_common_fuel(nl, lib, nets.drop_last(), xs.drop_last(), a);
        assert(net_value(nl, lib, nets[n], a) == Some(xs[n]));
        let f2 = choose|f: nat| (#[trigger] net_val(nl, lib, nets[n], a, f)) is Some;
        let f = if f1 <= f2 {
            f2
        } else {
            f1
        };
        lemma_vals_mono(nl, lib, nets.drop_last(), a, f1, f);
        lemma_val_mono(nl, lib, nets[n], a, f2, f);
        assert(xs =~= xs.drop_last().push(xs[n]));
        f
    }
}

/// A gate whose inputs have values has the value of its primitive on them.
proof fn lemma_gate_value(
    nl: Netlist,
    lib: Lib,
    net: Seq<char>,
    op: Op,
    ins: Seq<(Seq<char>, Seq<char>)>,
    xs: Seq<bool>,
    a: spec_fn(Seq<char>) -> bool,
)
    requires
        !is_free(nl, lib, net),
        gate_of(nl, lib, net) == Some((op, ins)),
        xs.len() == ins.len(),
        forall|k: int| 0 <= k < ins.len() ==> net_value(nl, lib, #[trigger] ins[k].1, a) == Some(xs[k]),
        op_value(op, xs, pin_part(ins)) is Some,
    ensures
        net_value(nl, lib, net, a) == op_value(op, xs, pin_part(ins)),
{
    let nets = net_part(ins);
    assert forall|k: int| 0 <= k < nets.len() implies net_value(nl, lib, #[trigger] nets[k], a) == Some(
        xs[k],
    ) by {
        assert(nets[k] == ins[k].1);
    }
    let f = lemma_common_fuel(nl, lib, nets, xs, a);
    assert(net_val(nl, lib, net, a, f + 1) == op_value(op, xs, pin_part(ins)));
    lemma_value_of_fuel(nl, lib, net, a, f + 1);
}

/// `net` has no function: under every assignment its cone meets a
/// combinational loop or a gate that is not a known primitive.
pub open spec fn undefined(nl: Netlist, lib: Lib, net: Seq<char>) -> bool {
    forall|a: spec_fn(Seq<char>) -> bool| #[trigger] net_value(nl, lib, net, a) is None
}

/// `from` is an input net of the cell driving `to`.
pub open spec fn feeds(nl: Netlist, lib: Lib, from: Seq<char>, to: Seq<char>) -> bool {
    &&& !is_free(nl, lib, to)
    &&& match gate_of(nl, lib, to) {
        Some((op, ins)) => net_part(ins).contains(from),
        None => false,
    }
}

proof fn lemma_vals_each(
    nl: Netlist,
    lib: Lib,
    nets: Seq<Seq<char>>,
    a: spec_fn(Seq<char>) -> bool,
    f: nat,
    k: int,
)
    requires
        vals_of(nl, lib, nets, a, f) is Some,
        0 <= k < nets.len(),
    ensures
        net_val(nl, lib, nets[k], a, f) is Some,
        vals_of(nl, lib, nets, a, f).unwrap().len() == nets.len(),
    decreases nets.len(),
{
    lemma_vals_len(nl, lib, nets, a, f);
    if k < nets.len() - 1 {
        lemma_vals_each(nl, lib, nets.drop_last(), a, f, k);
        assert(nets.drop_last()[k] == nets[k]);
    } else if nets.len() > 1 {
        lemma_vals_each(nl, lib, nets.drop_last(), a, f, 0);
    }
}

proof fn lemma_vals_len(nl: Netlist, lib: Lib, nets: Seq<Seq<char>>, a: spec_fn(Seq<char>) -> bool, f: nat)
    requires
        vals_of(nl, lib, nets, a, f) is Some,
    ensures
        vals_of(nl, lib, nets, a, f).unwrap().len() == nets.len(),
    decreases nets.len(),
{
    if nets.len() > 0 {
        lemma_vals_len(nl, lib, nets.drop_last(), a, f);
    }
}

/// A gate with a value has values on its inputs, one level shallower.
proof fn lemma_child_some(
    nl: Netlist,
    lib: Lib,
    n: Seq<char>,
    c: Seq<char>,
    a: spec_fn(Seq<char>) -> bool,
    f: nat,
)
    requires
        feeds(nl, lib, c, n),
        net_val(nl, lib, n, a, f) is Some,
    ensures
        f > 0,
        net_val(nl, lib, c, a, (f - 1) as nat) is Some,
{
    let (op, ins) = gate_of(nl, lib, n).unwrap();
    let nets = net_part(ins);
    let k = choose|k: int| 0 <= k < nets.len() && nets[k] == c;
    lemma_vals_each(nl, lib, nets, a, (f - 1) as nat, k);
}

/// A net fed by a net without a function has none either.
proof fn lemma_undefined_up(nl: Netlist, lib: Lib, c: Seq<char>, n: Seq<char>)
    requires
        feeds(nl, lib, c, n),
        undefined(nl, lib, c),
    ensures
        undefined(nl, lib, n),
{
    assert forall|a: spec_fn(Seq<char>) -> bool| #[trigger] net_value(nl, lib, n, a) is None by {
        if exists|f: nat| (#[trigger] net_val(nl, lib, n, a, f)) is Some {
            let f = choose|f: nat| (#[trigger] net_val(nl, lib, n, a, f)) is Some;
            lemma_child_some(nl, lib, n, c, a, f);
            lemma_value_of_fuel(nl, lib, c, a, (f - 1) as nat);
            assert(net_value(nl, lib, c, a) is None);
        }
    }
}

/// A driven net whose gate is not a known primitive, or does not apply to its
/// inputs, has no function.
proof fn lemma_bad_gate_undefined(nl: Netlist, lib: Lib, n: Seq<char>)
    requires
        !is_free(nl, lib, n),
        match gate_of(nl, lib, n) {
            Some((op, ins)) => !op_shape_ok(op, ins.len(), pin_part(ins)),
            None => true,
        },
    ensures
        undefined(nl, lib, n),
{
    assert forall|a: spec_fn(Seq<char>) -> bool| #[trigger] net_value(nl, lib, n, a) is None by {
        if exists|f: nat| (#[trigger] net_val(nl, lib, n, a, f)) is Some {
            let f = choose|f: nat| (#[trigger] net_val(nl, lib, n, a, f)) is Some;
            let (op, ins) = gate_of(nl, lib, n).unwrap();
            lemma_vals_len(nl, lib, net_part(ins), a, (f - 1) as nat);
        }
    }
}

/// Every net on a cycle of gates has no function.
proof fn lemma_cycle_none(nl: Netlist, lib: Lib, cyc: Seq<Seq<char>>, a: spec_fn(Seq<char>) -> bool, f: nat)
    requires
        cyc.len() >= 1,
        forall|i: int| 0 <= i < cyc.len() - 1 ==> feeds(nl, lib, #[trigger] cyc[i + 1], cyc[i]),
        feeds(nl, lib, cyc[0], cyc[cyc.len() - 1]),
    ensures
        forall|i: int| 0 <= i < cyc.len() ==> (#[trigger] net_val(nl, lib, cyc[i], a, f)) is None,
    decreases f,
{
    assert forall|i: int| 0 <= i < cyc.len() implies (#[trigger] net_val(nl, lib, cyc[i], a, f)) is None by {
        if net_val(nl, lib, cyc[i], a, f) is Some {
            if f > 0 {
                lemma_cycle_none(nl, lib, cyc, a, (f - 1) as nat);
            }
            if i < cyc.len() - 1 {
                assert(feeds(nl, lib, cyc[i + 1], cyc[i]));
                lemma_child_some(nl, lib, cyc[i], cyc[i + 1], a, f);
            } else {
                lemma_child_some(nl, lib, cyc[i], cyc[0], a, f);
            }
        }
    }
}

proof fn lemma_cycle_undefined(nl: Netlist, lib: Lib, cyc: Seq<Seq<char>>)
    requires
        cyc.len() >= 1,
        forall|i: int| 0 <= i < cyc.len() - 1 ==> feeds(nl, lib, #[trigger] cyc[i + 1], cyc[i]),
        feeds(nl, lib, cyc[0], cyc[cyc.len() - 1]),
    ensures
        undefined(nl, lib, cyc[0]),
{
    assert forall|a: spec_fn(Seq<char>) -> bool| #[trigger] net_value(nl, lib, cyc[0], a) is None by {
        if exists|f: nat| (#[trigger] net_val(nl, lib, cyc[0], a, f)) is Some {
            let f = choose|f: nat| (#[trigger] net_val(nl, lib, cyc[0], a, f)) is Some;
            lemma_cycle_none(nl, lib, cyc, a, f);
        }
    }
}

/// The message of a full variable order.
pub open spec fn vars_full_message() -> Seq<char> {
    "too many free nets for one variable order"@
}

/// The message of a full node table.
pub open spec fn bdd_full_message() -> Seq<char> {
    "BDD node table is full"@
}

fn vars_full_error() -> (m: String)
    ensures
        m@ == vars_full_message(),
{
    String::from_str("too many free nets for one variable order")
}

fn bdd_full_error() -> (m: String)
    ensures
        m@ == bdd_full_message(),
{
    String::from_str("BDD node table is full")
}

// ---------------------------------------------------------------------------
// The shared variable registry

/// The most variables one order holds (the terminal variable is reserved).
pub const VAR_CAPACITY: usize = 0xFFFF_FFFF;

/// `s` is a prefix of `t`.
pub open spec fn is_prefix(s: Seq<Seq<char>>, t: Seq<Seq<char>>) -> bool {
    s.len() <= t.len() && forall|k: int| 0 <= k < s.len() ==> #[trigger] t[k] == s[k]
}

/// The variable assignment that gives variable `k` the value of the free net
/// `names[k]` under the net assignment `a`.
pub open spec fn var_env(names: Seq<Seq<char>>, a: spec_fn(Seq<char>) -> bool) -> spec_fn(u32) -> bool {
    |k: u32| if (k as int) < names.len() { a(names[k as int]) } else { false }
}

/// A free net name -> a BDD variable index, consistent across both designs (same
/// name -> same variable); variables are numbered in registration order.
struct Vars {
    rev: Vec<String>,
}

impl Vars {
    spec fn names(&self) -> Seq<Seq<char>> {
        strings(self.rev@)
    }

    spec fn wf(&self) -> bool {
        &&& self.names().no_duplicates()
        &&& self.rev@.len() <= VAR_CAPACITY
    }

    fn new() -> (v: Vars)
        ensures
            v.wf(),
            v.names() =~= Seq::<Seq<char>>::empty(),
    {
        Vars { rev: Vec::new() }
    }

    /// The variable of `name`, registered on first use; `None` once the order is full.
    fn get(&mut self, name: &String) -> (r: Option<u32>)
        requires
            old(self).wf(),
        ensures
            final(self).wf(),
            is_prefix(old(self).names(), final(self).names()),
            r matches Some(i) ==> i < final(self).names().len() && final(self).names()[i as int] == name@
                && i < TERM_VAR,
            old(self).names().contains(name@) ==> r is Some && final(self).names() == old(self).names(),
            !old(self).names().contains(name@) ==> (r is Some <==> old(self).names().len() < VAR_CAPACITY),
            r is None ==> final(self).names() == old(self).names(),
            r is None ==> !old(self).names().contains(name@) && old(self).names().len() == VAR_CAPACITY,
            forall|j: int|
                0 <= j < old(self).names().len() && #[trigger] old(self).names()[j] == name@ ==> r == Some(j as u32),
            !old(self).names().contains(name@) && r is Some ==> final(self).names() == old(self).names().push(name@)
                && r == Some(old(self).names().len() as u32),
    {
        let ghost names = self.names();
        let mut i: usize = 0;
        while i < self.rev.len()
            invariant
                names == self.names(),
                self.wf(),
                i <= self.rev@.len(),
                forall|j: int| 0 <= j < i ==> names[j] != name@,
            decreases self.rev@.len() - i,
        {
            if self.rev[i] == *name {
                assert(names[i as int] == name@);
                return Some(i as u32);
            }
            i += 1;
        }
        assert(!names.contains(name@));
        if self.rev.len() >= VAR_CAPACITY {
            return None;
        }
        let i = self.rev.len() as u32;
        self.rev.push(name.clone());
        assert(self.names() =~= names.push(name@));
        proof {
            assert forall|j: int, k: int|
                0 <= j < self.names().len() && 0 <= k < self.names().len() && j != k implies self.names()[j]
                != self.names()[k] by {
                if j < names.len() && k < names.len() {
                } else if j < names.len() {
                    assert(names.contains(names[j]));
                } else {
                    assert(names.contains(names[k]));
                }
            }
        }
        Some(i)
    }

    fn name(&self, idx: u32) -> (r: &String)
        requires
            idx < self.rev@.len(),
        ensures
            r@ == self.names()[idx as int],
    {
        &self.rev[idx as usize]
    }
}

// ---------------------------------------------------------------------------
// Applying a primitive to BDD inputs

/// The values of the functions `hs` under `env`.
pub open spec fn evals(b: Bdd, hs: Seq<u32>, env: spec_fn(u32) -> bool) -> Seq<bool> {
    hs.map_values(|h: u32| b.eval(h, env))
}

/// Fold `ins` left to right with AND, OR or XOR.
fn reduce(bdd: &mut Bdd, kind: Op, ins: &Vec<u32>) -> (r: u32)
    requires
        old(bdd).wf(),
        ins@.len() >= 1,
        forall|k: int| 0 <= k < ins@.len() ==> old(bdd).valid(#[trigger] ins@[k]),
        kind == Op::And || kind == Op::Or || kind == Op::Xor,
    ensures
        final(bdd).wf(),
        final(bdd).extends(*old(bdd)),
        final(bdd).covers(*old(bdd)),
        final(bdd).valid(r),
        forall|n: nat| #[trigger] old(bdd).vars_below(n) ==> final(bdd).vars_below(n),
        forall|n: nat| #[trigger] final(bdd).vars_below(n) ==> final(bdd).size() <= old(bdd).size() + 2 * ins@.len() * pow2(n),
        !final(bdd).full() ==> forall|env: spec_fn(u32) -> bool| #[trigger]
            final(bdd).eval(r, env) == fold_bool(kind, evals(*old(bdd), ins@, env)),
{
    let ghost b0 = *bdd;
    let mut acc = ins[0];
    proof {
        assert forall|env: spec_fn(u32) -> bool| #[trigger] bdd.eval(acc, env) == fold_bool(
            kind,
            evals(b0, ins@.take(1), env),
        ) by {
            assert(evals(b0, ins@.take(1), env).len() == 1);
        }
    }
    let mut k: usize = 1;
    while k < ins.len()
        invariant
            bdd.wf(),
            bdd.extends(b0),
            bdd.covers(b0),
            b0.wf(),
            bdd.valid(acc),
            1 <= k <= ins@.len(),
            forall|j: int| 0 <= j < ins@.len() ==> b0.valid(#[trigger] ins@[j]),
            forall|n: nat| #[trigger] b0.vars_below(n) ==> bdd.vars_below(n),
            forall|n: nat| #[trigger] bdd.vars_below(n) ==> bdd.size() <= b0.size() + 2 * k * pow2(n),
            kind == Op::And || kind == Op::Or || kind == Op::Xor,
            !bdd.full() ==> forall|env: spec_fn(u32) -> bool| #[trigger]
                bdd.eval(acc, env) == fold_bool(kind, evals(b0, ins@.take(k as int), env)),
        decreases ins@.len() - k,
    {
        let x = ins[k];
        let ghost prev = *bdd;
        let ghost prev_acc = acc;
        assert(b0.valid(x));
        acc = match kind {
            Op::And => bdd.and(acc, x),
            Op::Or => bdd.or(acc, x),
            _ => bdd.xor(acc, x),
        };
        proof {
            assert forall|n: nat| #[trigger] bdd.vars_below(n) implies bdd.size() <= b0.size() + 2 * (k + 1) * pow2(n) by {
                assert(prev.vars_below(n));
                let p = pow2(n);
                let kk = k as int;
                assert(2 * kk * p + 2 * p == 2 * (kk + 1) * p) by (nonlinear_arith);
            }
            if !bdd.full() {
                assert forall|env: spec_fn(u32) -> bool| #[trigger] bdd.eval(acc, env) == fold_bool(
                    kind,
                    evals(b0, ins@.take(k + 1), env),
                ) by {
                    let vs = evals(b0, ins@.take(k + 1), env);
                    assert(vs.drop_last() =~= evals(b0, ins@.take(k as int), env));
                    assert(vs.last() == b0.eval(x, env));
                    assert(prev.eval(x, env) == b0.eval(x, env));
                    assert(prev.eval(prev_acc, env) == fold_bool(kind, evals(b0, ins@.take(k as int), env)));
                }
            }
        }
        k += 1;
    }
    assert(ins@.take(ins@.len() as int) =~= ins@);
    acc
}

/// The error for an instance of cell `name`, which the Liberty lacks.
pub open spec fn unknown_cell_message(name: Seq<char>) -> Seq<char> {
    "no cell `"@ + name + "` in Liberty"@
}

/// The error for a combinational loop through `net`.
pub open spec fn loop_message(net: Seq<char>) -> Seq<char> {
    "combinational loop through net `"@ + net + "`"@
}

/// The error for a gate whose cell `name` is not a known logic primitive.
pub open spec fn not_primitive_message(name: Seq<char>) -> Seq<char> {
    "cell `"@ + name + "` is not a known logic primitive"@
}

/// `m` is the error of a gate without a function: a loop through a net, a cell
/// the Liberty lacks, a cell that is not a primitive, a primitive with the
/// wrong number of inputs, or a MUX without its pins.
pub open spec fn gate_error(m: Seq<char>) -> bool {
    ||| exists|x: Seq<char>| #[trigger] loop_message(x) == m
    ||| exists|x: Seq<char>| #[trigger] unknown_cell_message(x) == m
    ||| exists|x: Seq<char>| #[trigger] not_primitive_message(x) == m
    ||| exists|need: nat, got: nat| #[trigger] arity_message(need, got) == m
    ||| m == "MUX needs pins A, B, S"@
    ||| m == "AND/NAND needs inputs"@
    ||| m == "OR/NOR needs inputs"@
    ||| m == "XOR/XNOR needs inputs"@
}

/// The error `apply_op` gives for primitive `op` on `n` inputs.
pub open spec fn op_error(op: Op, n: nat) -> Seq<char> {
    match op {
        Op::Buf | Op::Not => arity_message(1, n),
        Op::Mux => if n != 3 {
            arity_message(3, n)
        } else {
            "MUX needs pins A, B, S"@
        },
        Op::And | Op::Nand => "AND/NAND needs inputs"@,
        Op::Or | Op::Nor => "OR/NOR needs inputs"@,
        Op::Xor | Op::Xnor => "XOR/XNOR needs inputs"@,
    }
}

/// The message for a primitive applied to the wrong number of inputs.
pub open spec fn arity_message(need: nat, got: nat) -> Seq<char> {
    "primitive expected "@ + decimal_spec(need) + " input(s), got "@ + decimal_spec(got)
}

fn arity_error(need: usize, got: usize) -> (m: String)
    ensures
        m@ == arity_message(need as nat, got as nat),
{
    let mut m = String::from_str("primitive expected ");
    m.append(decimal(need).as_str());
    m.append(" input(s), got ");
    m.append(decimal(got).as_str());
    m
}

/// `p` is `want` up to ASCII case, where `want` is an upper-case letter.
fn pin_is_exec(p: &String, want: char) -> (b: bool)
    requires
        'A' <= want <= 'Z',
    ensures
        b == pin_is(p@, want),
{
    if p.as_str().unicode_len() != 1 {
        return false;
    }
    let c = p.as_str().get_char(0);
    let u = if 'a' <= c && c <= 'z' {
        ((c as u8) - 32) as char
    } else {
        c
    };
    u == want
}

/// The position of the first pin named `want` (up to ASCII case).
fn position_ci(pins: &Vec<String>, want: char) -> (r: Option<usize>)
    requires
        'A' <= want <= 'Z',
    ensures
        same_index(r, pin_pos(strings(pins@), want)),
        r matches Some(k) ==> k < pins@.len(),
{
    let ghost ps = strings(pins@);
    let mut k: usize = 0;
    while k < pins.len()
        invariant
            ps == strings(pins@),
            'A' <= want <= 'Z',
            k <= pins@.len(),
            forall|j: int| 0 <= j < k ==> !pin_is(ps[j], want),
        decreases pins@.len() - k,
    {
        if pin_is_exec(&pins[k], want) {
            proof {
                assert(is_first_pin(ps, want, k as int));
                let c = choose|x: int| is_first_pin(ps, want, x);
                assert(is_first_pin(ps, want, c));
                if c < k {
                    assert(!pin_is(ps[c], want));
                }
                if k < c {
                    assert(!pin_is(ps[k as int], want));
                }
            }
            return Some(k);
        }
        k += 1;
    }
    None
}

proof fn lemma_gate_cost(k: nat, p: nat)
    ensures
        2 * k * p + p <= (2 * k + 2) * p,
        p <= (2 * k + 2) * p,
{
    assert(2 * k * p + p <= (2 * k + 2) * p) by (nonlinear_arith);
    assert(p <= (2 * k + 2) * p) by (nonlinear_arith);
}

/// Apply primitive `op` to the input functions `ins` (on pins `pins`).
fn apply_op(bdd: &mut Bdd, op: Op, ins: &Vec<u32>, pins: &Vec<String>) -> (r: Result<u32, String>)
    requires
        old(bdd).wf(),
        ins@.len() == pins@.len(),
        forall|k: int| 0 <= k < ins@.len() ==> old(bdd).valid(#[trigger] ins@[k]),
    ensures
        final(bdd).wf(),
        final(bdd).extends(*old(bdd)),
        final(bdd).covers(*old(bdd)),
        forall|n: nat| #[trigger] old(bdd).vars_below(n) ==> final(bdd).vars_below(n),
        r is Ok <==> op_shape_ok(op, ins@.len(), strings(pins@)),
        r is Err ==> *final(bdd) == *old(bdd),
        r matches Err(m) ==> gate_error(m@) && m@ == op_error(op, ins@.len()),
        r is Ok ==> forall|n: nat| #[trigger] final(bdd).vars_below(n) ==> final(bdd).size() <= old(bdd).size() + (2
            * ins@.len() + 2) * pow2(n),
        r matches Ok(f) ==> final(bdd).valid(f) && (!final(bdd).full() ==> forall|env: spec_fn(u32) -> bool|
            op_value(op, evals(*old(bdd), ins@, env), strings(pins@)) == Some(
                #[trigger] final(bdd).eval(f, env),
            )),
{
    let ghost b0 = *bdd;
    match op {
        Op::Buf => {
            if ins.len() != 1 {
                let m = arity_error(1, ins.len());
                assert(arity_message(1, ins@.len() as nat) == m@);
                return Err(m);
            }
            assert(b0.valid(ins@[0]));
            Ok(ins[0])
        },
        Op::Not => {
            if ins.len() != 1 {
                let m = arity_error(1, ins.len());
                assert(arity_message(1, ins@.len() as nat) == m@);
                return Err(m);
            }
            assert(b0.valid(ins@[0]));
            let out = bdd.not(ins[0]);
            proof {
                assert forall|n: nat| #[trigger] bdd.vars_below(n) implies bdd.size() <= b0.size() + (2 * ins@.len()
                    + 2) * pow2(n) by {
                    lemma_gate_cost(ins@.len(), pow2(n));
                }
            }
            Ok(out)
        },
        Op::Mux => {
            // out = S ? B : A, pins named A/B/S
            if ins.len() != 3 {
                let m = arity_error(3, ins.len());
                assert(arity_message(3, ins@.len() as nat) == m@);
                return Err(m);
            }
            let a = position_ci(pins, 'A');
            let b = position_ci(pins, 'B');
            let s = position_ci(pins, 'S');
            match (a, b, s) {
                (Some(a), Some(b), Some(s)) => {
                    assert(b0.valid(ins@[a as int]));
                    assert(b0.valid(ins@[b as int]));
                    assert(b0.valid(ins@[s as int]));
                    let out = bdd.ite(ins[s], ins[b], ins[a]);
                    proof {
                        assert forall|n: nat| #[trigger] bdd.vars_below(n) implies bdd.size() <= b0.size() + (2
                            * ins@.len() + 2) * pow2(n) by {
                            lemma_gate_cost(ins@.len(), pow2(n));
                        }
                    }
                    Ok(out)
                },
                _ => Err(String::from_str("MUX needs pins A, B, S")),
            }
        },
        Op::And | Op::Nand => {
            if ins.len() == 0 {
                return Err(String::from_str("AND/NAND needs inputs"));
            }
            let acc = reduce(bdd, Op::And, ins);
            let ghost b1 = *bdd;
            let out = if op == Op::Nand {
                bdd.not(acc)
            } else {
                acc
            };
            proof {
                assert forall|n: nat| #[trigger] bdd.vars_below(n) implies bdd.size() <= b0.size() + (2 * ins@.len()
                    + 2) * pow2(n) by {
                    assert(b1.vars_below(n));
                    lemma_gate_cost(ins@.len(), pow2(n));
                }
            }
            Ok(out)
        },
        Op::Or | Op::Nor => {
            if ins.len() == 0 {
                return Err(String::from_str("OR/NOR needs inputs"));
            }
            let acc = reduce(bdd, Op::Or, ins);
            let ghost b1 = *bdd;
            let out = if op == Op::Nor {
                bdd.not(acc)
            } else {
                acc
            };
            proof {
                assert forall|n: nat| #[trigger] bdd.vars_below(n) implies bdd.size() <= b0.size() + (2 * ins@.len()
                    + 2) * pow2(n) by {
                    assert(b1.vars_below(n));
                    lemma_gate_cost(ins@.len(), pow2(n));
                }
            }
            Ok(out)
        },
        Op::Xor | Op::Xnor => {
            if ins.len() == 0 {
                return Err(String::from_str("XOR/XNOR needs inputs"));
            }
            let acc = reduce(bdd, Op::Xor, ins);
            let ghost b1 = *bdd;
            let out = if op == Op::Xnor {
                bdd.not(acc)
            } else {
                acc
            };
            proof {
                assert forall|n: nat| #[trigger] bdd.vars_below(n) implies bdd.size() <= b0.size() + (2 * ins@.len()
                    + 2) * pow2(n) by {
                    assert(b1.vars_below(n));
                    lemma_gate_cost(ins@.len(), pow2(n));
                }
            }
            Ok(out)
        },
    }
}

// ---------------------------------------------------------------------------
// Building the BDD of a net

/// `r` is the function of `net`: under every net assignment `a`, the value of
/// `r` (its variables read through `names`, or any order that extends it) is the
/// value of `net`.
pub open spec fn net_ok(nl: Netlist, lib: Lib, b: Bdd, names: Seq<Seq<char>>, net: Seq<char>, r: u32) -> bool {
    &&& b.valid(r)
    &&& !b.full() ==> forall|names2: Seq<Seq<char>>, a: spec_fn(Seq<char>) -> bool|
        #![trigger b.eval(r, var_env(names2, a))]
        is_prefix(names, names2) ==> net_value(nl, lib, net, a) == Some(b.eval(r, var_env(names2, a)))
}

/// Every memoized entry holds the function of the net it drives.
spec fn memo_inv(nl: Netlist, lib: Lib, b: Bdd, names: Seq<Seq<char>>, es: Seq<(usize, usize)>, memo: Seq<Option<u32>>) -> bool {
    forall|e: int|
        0 <= e < memo.len() && (#[trigger] memo[e]) is Some ==> net_ok(nl, lib, b, names, entry_net(nl, es[e]), memo[e].unwrap())
}

proof fn lemma_net_ok_mono(
    nl: Netlist,
    lib: Lib,
    b1: Bdd,
    n1: Seq<Seq<char>>,
    b2: Bdd,
    n2: Seq<Seq<char>>,
    net: Seq<char>,
    r: u32,
)
    requires
        net_ok(nl, lib, b1, n1, net, r),
        b2.extends(b1),
        is_prefix(n1, n2),
    ensures
        net_ok(nl, lib, b2, n2, net, r),
{
    if !b2.full() {
        assert forall|names2: Seq<Seq<char>>, a: spec_fn(Seq<char>) -> bool|
            is_prefix(n2, names2) implies net_value(nl, lib, net, a) == Some(#[trigger] b2.eval(r, var_env(names2, a))) by {
            assert(is_prefix(n1, names2)) by {
                assert forall|k: int| 0 <= k < n1.len() implies #[trigger] names2[k] == n1[k] by {
                    assert(names2[k] == n2[k]);
                }
            }
            assert(b1.eval(r, var_env(names2, a)) == b2.eval(r, var_env(names2, a)));
        }
    }
}

proof fn lemma_memo_mono(
    nl: Netlist,
    lib: Lib,
    b1: Bdd,
    n1: Seq<Seq<char>>,
    b2: Bdd,
    n2: Seq<Seq<char>>,
    es: Seq<(usize, usize)>,
    memo: Seq<Option<u32>>,
)
    requires
        memo_inv(nl, lib, b1, n1, es, memo),
        b2.extends(b1),
        is_prefix(n1, n2),
    ensures
        memo_inv(nl, lib, b2, n2, es, memo),
{
    assert forall|e: int| 0 <= e < memo.len() && (#[trigger] memo[e]) is Some implies net_ok(
        nl,
        lib,
        b2,
        n2,
        entry_net(nl, es[e]),
        memo[e].unwrap(),
    ) by {
        lemma_net_ok_mono(nl, lib, b1, n1, b2, n2, entry_net(nl, es[e]), memo[e].unwrap());
    }
}

proof fn lemma_prefix_trans(s: Seq<Seq<char>>, t: Seq<Seq<char>>, u: Seq<Seq<char>>)
    requires
        is_prefix(s, t),
        is_prefix(t, u),
    ensures
        is_prefix(s, u),
{
    assert forall|k: int| 0 <= k < s.len() implies #[trigger] u[k] == s[k] by {
        assert(u[k] == t[k]);
    }
}

/// The number of `true` flags.
pub open spec fn count_true(s: Seq<bool>) -> nat
    decreases s.len(),
{
    if s.len() == 0 {
        0
    } else {
        count_true(s.drop_last()) + if s.last() {
            1nat
        } else {
            0nat
        }
    }
}

proof fn lemma_count_le(s: Seq<bool>)
    ensures
        count_true(s) <= s.len(),
    decreases s.len(),
{
    if s.len() > 0 {
        lemma_count_le(s.drop_last());
    }
}

proof fn lemma_count_set(s: Seq<bool>, e: int)
    requires
        0 <= e < s.len(),
        !s[e],
    ensures
        count_true(s.update(e, true)) == count_true(s) + 1,
    decreases s.len(),
{
    let t = s.update(e, true);
    if e == s.len() - 1 {
        assert(t.drop_last() =~= s.drop_last());
    } else {
        assert(t.drop_last() =~= s.drop_last().update(e, true));
        lemma_count_set(s.drop_last(), e);
    }
}

/// The most nodes comparing one endpoint adds when every variable is below
/// `n`: every gate of both designs once, the endpoint's own variable in each, and
/// the miter.
pub open spec fn endpoint_cost(golden: Netlist, revised: Netlist, lib: Lib, n: nat) -> nat {
    (driver_entries(golden, lib).len() + driver_entries(revised, lib).len()) * gate_cost(lib, n) + 2 + 2 * pow2(n)
}

/// A bound on the nodes the whole check builds: one endpoint cost per shared
/// endpoint, over the designs' free nets, and the two terminals.
pub open spec fn check_bound(golden: Netlist, revised: Netlist, lib: Lib) -> nat {
    2 + shared_set(golden, revised, lib).len() * endpoint_cost(
        golden,
        revised,
        lib,
        free_names(golden, revised, lib).len(),
    )
}

/// The check's node bound stays below the node table's capacity on designs with
/// at most 16 free nets, 16 shared endpoints, 64 gate outputs each and cells of
/// at most 8 pins: on those, `equivalence` owes a report whenever the designs
/// are checkable.
pub proof fn lemma_check_bound_small(golden: Netlist, revised: Netlist, lib: Lib)
    requires
        shared_set(golden, revised, lib).len() <= 16,
        free_names(golden, revised, lib).len() <= 16,
        driver_entries(golden, lib).len() <= 64,
        driver_entries(revised, lib).len() <= 64,
        max_pins(lib) <= 8,
    ensures
        check_bound(golden, revised, lib) < NODE_CAPACITY,
{
    let f = free_names(golden, revised, lib).len();
    vstd::arithmetic::power2::lemma2_to64();
    if f < 16 {
        vstd::arithmetic::power2::lemma_pow2_strictly_increases(f, 16);
    }
    let p = pow2(f) as int;
    assert(p <= 65536);
    let m = max_pins(lib) as int;
    let gc = gate_cost(lib, f) as int;
    assert(gc <= 18 * 65536 + 8) by (nonlinear_arith)
        requires
            gc == (2 * m + 2) * p + m,
            0 <= m <= 8,
            0 <= p <= 65536,
    ;
    let d = (driver_entries(golden, lib).len() + driver_entries(revised, lib).len()) as int;
    let ec = endpoint_cost(golden, revised, lib, f) as int;
    assert(ec <= 128 * (18 * 65536 + 8) + 2 + 2 * 65536) by (nonlinear_arith)
        requires
            ec == d * gc + 2 + 2 * p,
            0 <= d <= 128,
            0 <= gc <= 18 * 65536 + 8,
            0 <= p <= 65536,
    ;
    let e = shared_set(golden, revised, lib).len() as int;
    assert(e * ec <= 16 * (128 * (18 * 65536 + 8) + 2 + 2 * 65536)) by (nonlinear_arith)
        requires
            0 <= e <= 16,
            0 <= ec <= 128 * (18 * 65536 + 8) + 2 + 2 * 65536,
    ;
}

proof fn lemma_count_some_none(s: Seq<Option<u32>>)
    requires
        forall|e: int| 0 <= e < s.len() ==> (#[trigger] s[e]) is None,
    ensures
        count_some(s) == 0,
    decreases s.len(),
{
    if s.len() > 0 {
        lemma_count_some_none(s.drop_last());
    }
}

/// The filled entries of a memo.
pub open spec fn count_some(s: Seq<Option<u32>>) -> nat
    decreases s.len(),
{
    if s.len() == 0 {
        0
    } else {
        count_some(s.drop_last()) + if s.last() is Some {
            1nat
        } else {
            0nat
        }
    }
}

proof fn lemma_count_some_le(s: Seq<Option<u32>>)
    ensures
        count_some(s) <= s.len(),
    decreases s.len(),
{
    if s.len() > 0 {
        lemma_count_some_le(s.drop_last());
    }
}

proof fn lemma_count_some_set(s: Seq<Option<u32>>, e: int, v: u32)
    requires
        0 <= e < s.len(),
        s[e] is None,
    ensures
        count_some(s.update(e, Some(v))) == count_some(s) + 1,
    decreases s.len(),
{
    let t = s.update(e, Some(v));
    if e == s.len() - 1 {
        assert(t.drop_last() =~= s.drop_last());
    } else {
        assert(t.drop_last() =~= s.drop_last().update(e, Some(v)));
        lemma_count_some_set(s.drop_last(), e, v);
    }
}

/// The most pins a cell of `cells` has.
pub open spec fn max_pins_of(cells: Seq<Cell>) -> nat
    decreases cells.len(),
{
    if cells.len() == 0 {
        0
    } else {
        let m = max_pins_of(cells.drop_last());
        if cells.last().pins@.len() > m {
            cells.last().pins@.len()
        } else {
            m
        }
    }
}

/// The most pins a cell of the Liberty has.
pub open spec fn max_pins(lib: Lib) -> nat {
    max_pins_of(lib.cells@)
}

proof fn lemma_max_pins(cells: Seq<Cell>, c: int)
    requires
        0 <= c < cells.len(),
    ensures
        cells[c].pins@.len() <= max_pins_of(cells),
    decreases cells.len(),
{
    if c < cells.len() - 1 {
        lemma_max_pins(cells.drop_last(), c);
        assert(cells.drop_last()[c] == cells[c]);
    }
}

/// The most nodes building one gate adds when every variable is below `n`: a
/// variable node for each of its inputs and the operations of its primitive.
pub open spec fn gate_cost(lib: Lib, n: nat) -> nat {
    (2 * max_pins(lib) + 2) * pow2(n) + max_pins(lib)
}

proof fn lemma_gate_fits(k: nat, m: nat, p: nat)
    requires
        k <= m,
    ensures
        k + (2 * k + 2) * p <= (2 * m + 2) * p + m + 1,
{
    assert((2 * k + 2) * p <= (2 * m + 2) * p) by (nonlinear_arith)
        requires
            k <= m,
    ;
}

impl<'a> Design<'a> {
    /// The driver entry `e` belongs to a sequential cell.
    fn seq_entry(&self, e: usize) -> (b: bool)
        requires
            self.wf(),
            e < self.driver@.len(),
        ensures
            b == seq_driven(*self.nl, *self.lib, self.driver@[e as int]),
    {
        let (i, _j) = self.driver[e];
        assert(self.driver@[e as int].0 < self.nl.insts@.len());
        match find_cell(self.lib, &self.nl.insts[i].cell) {
            Some(c) => self.lib.cells[c].is_seq,
            None => false,
        }
    }
}

/// The gates flagged in `flags` are those of nets on `path`, and each net on
/// `path` feeds the one before it.
spec fn path_ok(nl: Netlist, lib: Lib, path: Seq<Seq<char>>, flags: Seq<bool>) -> bool {
    &&& forall|e: int|
        0 <= e < flags.len() && #[trigger] flags[e] ==> exists|j: int|
            0 <= j < path.len() && driver(nl, lib, #[trigger] path[j]) == Some(e)
    &&& forall|j: int| 0 <= j < path.len() - 1 ==> feeds(nl, lib, #[trigger] path[j + 1], path[j])
}

proof fn lemma_gate_ins_grow(inst: Inst, cell: Cell, q: int, q2: int, x: Seq<char>)
    requires
        0 <= q <= q2,
        net_part(gate_ins(inst, cell, q)).contains(x),
    ensures
        net_part(gate_ins(inst, cell, q2)).contains(x),
    decreases q2 - q,
{
    if q < q2 {
        lemma_gate_ins_grow(inst, cell, q, q2 - 1, x);
        let prev = gate_ins(inst, cell, q2 - 1);
        let cur = gate_ins(inst, cell, q2);
        let j = choose|j: int| 0 <= j < net_part(prev).len() && net_part(prev)[j] == x;
        if cur != prev {
            assert(net_part(cur)[j] == x);
        }
    }
}

fn is_clock_exec(cell: &Cell, name: &String) -> (b: bool)
    ensures
        b == is_clock(*cell, name@),
{
    match &cell.clock_pin {
        Some(ck) => *ck == *name,
        None => false,
    }
}

fn message(head: &str, name: &String, tail: &str) -> (m: String)
    ensures
        m@ == head@ + name@ + tail@,
{
    let mut m = String::from_str(head);
    m.append(name.as_str());
    m.append(tail);
    m
}

/// Build the function of `net` in design `d`: a free net is its variable, a
/// driven net the primitive of its driving gate applied to the functions of the
/// gate's inputs. `memo` caches gate nets by driver entry; `on_path` flags the
/// gates on the current path, to find combinational loops.
fn build(
    net: &String,
    d: &Design,
    bdd: &mut Bdd,
    vars: &mut Vars,
    memo: &mut Vec<Option<u32>>,
    on_path: &mut Vec<bool>,
    Ghost(path): Ghost<Seq<Seq<char>>>,
) -> (res: Result<u32, String>)
    requires
        d.wf(),
        net_names(*d.nl).contains(net@),
        path_ok(*d.nl, *d.lib, path, old(on_path)@),
        path.len() > 0 ==> feeds(*d.nl, *d.lib, net@, path.last()),
        old(bdd).wf(),
        old(vars).wf(),
        old(bdd).vars_below(old(vars).names().len()),
        old(memo)@.len() == d.driver@.len(),
        old(on_path)@.len() == d.driver@.len(),
        memo_inv(*d.nl, *d.lib, *old(bdd), old(vars).names(), d.driver@, old(memo)@),
    ensures
        final(bdd).wf(),
        final(bdd).extends(*old(bdd)),
        final(bdd).covers(*old(bdd)),
        final(vars).wf(),
        is_prefix(old(vars).names(), final(vars).names()),
        drawn_from(final(vars).names(), old(vars).names(), free_nets(*d.nl, *d.lib)),
        final(bdd).vars_below(final(vars).names().len()),
        final(memo)@.len() == old(memo)@.len(),
        final(on_path)@.len() == old(on_path)@.len(),
        memo_inv(*d.nl, *d.lib, *final(bdd), final(vars).names(), d.driver@, final(memo)@),
        res is Ok ==> final(on_path)@ == old(on_path)@,
        res matches Ok(r) ==> net_ok(*d.nl, *d.lib, *final(bdd), final(vars).names(), net@, r),
        res matches Err(m) ==> (m@ == vars_full_message() && final(vars).names().len() == VAR_CAPACITY)
            || (gate_error(m@) && undefined(*d.nl, *d.lib, net@)),
        forall|x: int|
            0 <= x < old(memo)@.len() && (#[trigger] old(memo)@[x]) is Some ==> final(memo)@[x] == old(memo)@[x],
        res matches Ok(r) ==> (!is_free(*d.nl, *d.lib, net@) ==> final(memo)@[driver(*d.nl, *d.lib, net@).unwrap()]
            == Some(r)),
        (driver(*d.nl, *d.lib, net@) matches Some(e) && !is_free(*d.nl, *d.lib, net@) && old(memo)@[e] is None
            && old(on_path)@[e]) ==> (res matches Err(m) && m@ == loop_message(net@)),
        is_free(*d.nl, *d.lib, net@) ==> final(memo)@ == old(memo)@ && final(on_path)@ == old(on_path)@,
        forall|x: int|
            0 <= x < old(memo)@.len() && old(on_path)@[x] && (#[trigger] old(memo)@[x]) is None ==> final(memo)@[x] is None,
        res is Ok ==> forall|n: nat| #[trigger] final(bdd).vars_below(n) ==> final(bdd).size() <= old(bdd).size()
            + (count_some(final(memo)@) - count_some(old(memo)@)) * gate_cost(*d.lib, n) + 1,
        is_free(*d.nl, *d.lib, net@) ==> final(vars).names() == (if old(vars).names().contains(net@)
            || old(vars).names().len() >= VAR_CAPACITY {
            old(vars).names()
        } else {
            old(vars).names().push(net@)
        }),
        is_free(*d.nl, *d.lib, net@) ==> (res is Ok <==> (old(vars).names().contains(net@) || old(vars).names().len()
            < VAR_CAPACITY)),
        res matches Ok(r) ==> (is_free(*d.nl, *d.lib, net@) ==> exists|i: u32|
            i < final(vars).names().len() && #[trigger] final(vars).names()[i as int] == net@ && (!old(bdd).full()
                ==> final(bdd).holds_var(r, i))),
    decreases d.driver@.len() - count_true(on_path@),
{
    let ghost nl = *d.nl;
    let ghost lib = *d.lib;
    let ghost es = d.driver@;
    let ghost b0 = *bdd;
    let ghost n0 = vars.names();
    let ghost on0 = on_path@;
    let drv = d.driver_of(net);
    let free = contains_string(&d.nl.inputs, net) || match drv {
        None => true,
        Some(e) => d.seq_entry(e),
    };
    if free {
        // a free input: primary input, an undriven net, or a register (flop Q) output
        let idx = match vars.get(net) {
            Some(i) => i,
            None => return Err(vars_full_error()),
        };
        proof {
            b0.lemma_vars_below_mono(n0.len(), vars.names().len());
        }
        let f = bdd.var(idx);
        proof {
            let names = vars.names();
            assert(is_free(nl, lib, net@));
            assert(net_val(nl, lib, net@, |m: Seq<char>| true, 0) is Some);
            lemma_memo_mono(nl, lib, b0, n0, *bdd, names, es, memo@);
            if !bdd.full() {
                assert forall|names2: Seq<Seq<char>>, a: spec_fn(Seq<char>) -> bool|
                    is_prefix(names, names2) implies net_value(nl, lib, net@, a) == Some(
                    #[trigger] bdd.eval(f, var_env(names2, a)),
                ) by {
                    assert(net_val(nl, lib, net@, a, 0) == Some(a(net@)));
                    lemma_value_of_fuel(nl, lib, net@, a, 0);
                    assert(names2[idx as int] == names[idx as int]);
                }
            }
        }
        return Ok(f);
    }
    let e = match drv {
        Some(e) => e,
        None => return Err(vars_full_error()),
    };
    proof {
        assert(driver(nl, lib, net@) == Some(e as int));
        let c = choose|x: int| is_last(nl, es, net@, x);
        assert(is_last(nl, es, net@, c));
        assert(entry_net(nl, es[e as int]) == net@);
    }
    match memo[e] {
        Some(f) => {
            assert(memo@[e as int] is Some);
            return Ok(f);
        },
        None => {},
    }
    if on_path[e] {
        proof {
            let j = choose|j: int| 0 <= j < path.len() && driver(nl, lib, #[trigger] path[j]) == Some(e as int);
            let c = choose|x: int| is_last(nl, es, path[j], x);
            assert(is_last(nl, es, path[j], c));
            assert(entry_net(nl, es[e as int]) == path[j]);
            let cyc = path.subrange(j, path.len() as int);
            assert forall|i: int| 0 <= i < cyc.len() - 1 implies feeds(nl, lib, #[trigger] cyc[i + 1], cyc[i]) by {
                assert(cyc[i + 1] == path[j + i + 1]);
                assert(cyc[i] == path[j + i]);
            }
            assert(cyc[0] == net@);
            assert(cyc[cyc.len() - 1] == path.last());
            lemma_cycle_undefined(nl, lib, cyc);
        }
        let m = message("combinational loop through net `", net, "`");
        assert(loop_message(net@) == m@);
        return Err(m);
    }
    proof {
        lemma_count_set(on0, e as int);
        lemma_count_le(on0.update(e as int, true));
    }
    on_path.set(e, true);
    let (i, _j) = d.driver[e];
    assert(es[e as int].0 < nl.insts@.len());
    let inst = &d.nl.insts[i];
    proof {
        assert(!is_free(nl, lib, net@));
    }
    let c = match find_cell(d.lib, &inst.cell) {
        Some(c) => c,
        None => {
            proof {
                lemma_bad_gate_undefined(nl, lib, net@);
            }
            let m = message("no cell `", &inst.cell, "` in Liberty");
            assert(unknown_cell_message(inst.cell@) == m@);
            return Err(m);
        },
    };
    let cell = &d.lib.cells[c];
    let op = match op_of(&inst.cell) {
        Some(op) => op,
        None => {
            proof {
                lemma_bad_gate_undefined(nl, lib, net@);
            }
            let m = message("cell `", &inst.cell, "` is not a known logic primitive");
            assert(not_primitive_message(inst.cell@) == m@);
            return Err(m);
        },
    };
    let ghost full_ins = gate_ins(*inst, *cell, cell.pins@.len() as int);
    let ghost path2 = path.push(net@);
    proof {
        assert(gate_of(nl, lib, net@) == Some((op, full_ins)));
        assert forall|x: int| 0 <= x < on_path@.len() && #[trigger] on_path@[x] implies exists|j: int|
            0 <= j < path2.len() && driver(nl, lib, #[trigger] path2[j]) == Some(x) by {
            if x == e {
                assert(path2[path.len() as int] == net@);
            } else {
                assert(on0[x]);
                let j = choose|j: int| 0 <= j < path.len() && driver(nl, lib, #[trigger] path[j]) == Some(x);
                assert(path2[j] == path[j]);
            }
        }
        assert forall|j: int| 0 <= j < path2.len() - 1 implies feeds(nl, lib, #[trigger] path2[j + 1], path2[j]) by {
            if j < path.len() - 1 {
                assert(path2[j + 1] == path[j + 1] && path2[j] == path[j]);
            } else {
                assert(path2[j + 1] == net@ && path2[j] == path.last());
            }
        }
        assert(path_ok(nl, lib, path2, on_path@));
    }
    // input pins (combinational primitives have no clock pin); skip the cell's
    // clock pin defensively if one is ever present.
    let mut child: Vec<u32> = Vec::new();
    let mut child_pins: Vec<String> = Vec::new();
    let mut q: usize = 0;
    while q < cell.pins.len()
        invariant
            d.wf(),
            nl == *d.nl,
            lib == *d.lib,
            es == d.driver@,
            e < es.len(),
            es[e as int].0 == i,
            i < nl.insts@.len(),
            *inst == nl.insts@[i as int],
            c < lib.cells@.len(),
            *cell == lib.cells@[c as int],
            bdd.wf(),
            bdd.extends(b0),
            bdd.covers(b0),
            vars.wf(),
            is_prefix(n0, vars.names()),
            drawn_from(vars.names(), n0, free_nets(nl, lib)),
            bdd.vars_below(vars.names().len()),
            memo@.len() == es.len(),
            on0.len() == es.len(),
            on0 == old(on_path)@,
            b0 == *old(bdd),
            n0 == old(vars).names(),
            old(memo)@.len() == es.len(),
            old(on_path)@.len() == es.len(),
            on_path@.len() == es.len(),
            on_path@ == on0.update(e as int, true),
            count_true(on_path@) == count_true(on0) + 1,
            count_true(on_path@) <= es.len(),
            memo_inv(nl, lib, *bdd, vars.names(), es, memo@),
            forall|x: int|
                0 <= x < old(memo)@.len() && (#[trigger] old(memo)@[x]) is Some ==> memo@[x] == old(memo)@[x],
            old(memo)@[e as int] is None,
            !old(on_path)@[e as int],
            forall|x: int|
                0 <= x < old(memo)@.len() && on_path@[x] && (#[trigger] old(memo)@[x]) is None ==> memo@[x] is None,
            forall|n: nat| #[trigger] bdd.vars_below(n) ==> bdd.size() <= b0.size() + (count_some(memo@) - count_some(
                old(memo)@,
            )) * gate_cost(lib, n) + child@.len(),
            child@.len() <= q,
            driver(nl, lib, net@) == Some(e as int),
            q <= cell.pins@.len(),
            full_ins == gate_ins(*inst, *cell, cell.pins@.len() as int),
            path2 == path.push(net@),
            path_ok(nl, lib, path2, on_path@),
            !is_free(nl, lib, net@),
            gate_of(nl, lib, net@) == Some((op, full_ins)),
            child@.len() == gate_ins(*inst, *cell, q as int).len(),
            child_pins@.len() == child@.len(),
            forall|k: int| 0 <= k < child@.len() ==> #[trigger] child_pins@[k]@ == gate_ins(*inst, *cell, q as int)[k].0,
            forall|k: int|
                0 <= k < child@.len() ==> net_ok(nl, lib, *bdd, vars.names(), gate_ins(*inst, *cell, q as int)[k].1, #[trigger] child@[k]),
        decreases cell.pins@.len() - q,
    {
        let p = &cell.pins[q];
        let ghost prev_ins = gate_ins(*inst, *cell, q as int);
        if p.direction == Dir::In && !is_clock_exec(cell, &p.name) {
            match net_of(inst, &p.name) {
                Some(n) => {
                    let ghost b1 = *bdd;
                    let ghost m1 = memo@;
                    let ghost n1 = vars.names();
                    assert(d.driver@.len() - count_true(on_path@) < d.driver@.len() - count_true(on0));
                    assert(0 <= d.driver@.len() - count_true(on_path@));
                    proof {
                        let cur = gate_ins(*inst, *cell, q + 1);
                        assert(cur == prev_ins.push((p.name@, n@)));
                        assert(net_part(cur)[cur.len() - 1] == n@);
                        lemma_gate_ins_grow(*inst, *cell, q + 1, cell.pins@.len() as int, n@);
                        assert(feeds(nl, lib, n@, net@));
                        assert(path2.last() == net@);
                        lemma_net_of_named(nl, i as int, p.name@, n@);
                    }
                    let r = match build(n, d, bdd, vars, memo, on_path, Ghost(path2)) {
                        Ok(r) => r,
                        Err(m) => {
                            proof {
                                Bdd::lemma_extends_trans(b0, b1, *bdd);
                                assert(bdd.extends(b0));
                                if !(m@ == vars_full_message() && vars.names().len() == VAR_CAPACITY) {
                                    lemma_undefined_up(nl, lib, n@, net@);
                                }
                            }
                            return Err(m);
                        },
                    };
                    let ghost prev_child = child@;
                    let ghost prev_pins = child_pins@;
                    child.push(r);
                    child_pins.push(p.name.clone());
                    proof {
                        assert forall|n: nat| #[trigger] bdd.vars_below(n) implies bdd.size() <= b0.size() + (
                        count_some(memo@) - count_some(old(memo)@)) * gate_cost(lib, n) + child@.len() by {
                            assert(b1.vars_below(n));
                            let cc = gate_cost(lib, n) as int;
                            let c0 = count_some(old(memo)@) as int;
                            let c1 = count_some(m1) as int;
                            let c2 = count_some(memo@) as int;
                            assert((c1 - c0) * cc + (c2 - c1) * cc == (c2 - c0) * cc) by (nonlinear_arith);
                        }
                        let names = vars.names();
                        lemma_prefix_trans(n0, n1, names);
                        let cur = gate_ins(*inst, *cell, q + 1);
                        assert(cur == prev_ins.push((p.name@, n@)));
                        assert forall|k: int| 0 <= k < child@.len() implies #[trigger] child_pins@[k]@ == cur[k].0 by {
                            if k < prev_ins.len() {
                                assert(child_pins@[k] == prev_pins[k]);
                            }
                        }
                        assert forall|k: int| 0 <= k < child@.len() implies net_ok(
                            nl,
                            lib,
                            *bdd,
                            names,
                            cur[k].1,
                            #[trigger] child@[k],
                        ) by {
                            if k < prev_ins.len() {
                                assert(child@[k] == prev_child[k]);
                                lemma_net_ok_mono(nl, lib, b1, n1, *bdd, names, prev_ins[k].1, child@[k]);
                            }
                        }
                    }
                },
                None => {},
            }
        }
        q += 1;
    }
    let ghost b2 = *bdd;
    let ghost m2 = memo@;
    let ghost names = vars.names();
    let ghost ins = gate_ins(*inst, *cell, cell.pins@.len() as int);
    proof {
        assert forall|k: int| 0 <= k < child@.len() implies b2.valid(#[trigger] child@[k]) by {
            assert(net_ok(nl, lib, b2, names, ins[k].1, child@[k]));
        }
    }
    proof {
        assert(strings(child_pins@) =~= pin_part(ins));
    }
    let f = match apply_op(bdd, op, &child, &child_pins) {
        Ok(f) => f,
        Err(m) => {
            proof {
                lemma_bad_gate_undefined(nl, lib, net@);
            }
            return Err(m);
        },
    };
    let ghost b3 = *bdd;
    on_path.set(e, false);
    memo.set(e, Some(f));
    proof {
        assert(on_path@.len() == old(on_path)@.len());
        assert(m2[e as int] is None) by {
            assert(on0.update(e as int, true)[e as int]);
        }
        lemma_count_some_set(m2, e as int, f);
        lemma_max_pins(lib.cells@, c as int);
        assert forall|n: nat| #[trigger] bdd.vars_below(n) implies bdd.size() <= old(bdd).size() + (count_some(
            memo@,
        ) - count_some(old(memo)@)) * gate_cost(lib, n) + 1 by {
            assert(b2.vars_below(n));
            let p = pow2(n);
            let k = child@.len();
            lemma_gate_fits(k, max_pins(lib), p);
            let cc = gate_cost(lib, n) as int;
            let c0 = count_some(old(memo)@) as int;
            let c2 = count_some(m2) as int;
            assert((c2 - c0) * cc + cc == (c2 + 1 - c0) * cc) by (nonlinear_arith);
        }
        assert(on_path@ =~= on0);
        lemma_memo_mono(nl, lib, b2, names, *bdd, names, es, m2);
        assert(strings(child_pins@) =~= pin_part(ins));
        assert(!is_free(nl, lib, net@));
        assert(gate_of(nl, lib, net@) == Some((op, ins)));
        if !bdd.full() {
            assert forall|names2: Seq<Seq<char>>, a: spec_fn(Seq<char>) -> bool|
                is_prefix(names, names2) implies net_value(nl, lib, net@, a) == Some(
                #[trigger] bdd.eval(f, var_env(names2, a)),
            ) by {
                let env = var_env(names2, a);
                let xs = evals(b2, child@, env);
                assert forall|k: int| 0 <= k < ins.len() implies net_value(nl, lib, #[trigger] ins[k].1, a) == Some(
                    xs[k],
                ) by {
                    assert(net_ok(nl, lib, b2, names, ins[k].1, child@[k]));
                    assert(b2.eval(child@[k], var_env(names2, a)) == xs[k]);
                }
                assert(op_value(op, xs, strings(child_pins@)) == Some(bdd.eval(f, env)));
                lemma_gate_value(nl, lib, net@, op, ins, xs, a);
            }
        }
        assert forall|x: int| 0 <= x < memo@.len() && (#[trigger] memo@[x]) is Some implies net_ok(
            nl,
            lib,
            *bdd,
            names,
            entry_net(nl, es[x]),
            memo@[x].unwrap(),
        ) by {
            if x != e {
                assert(memo@[x] == m2[x]);
            }
        }
    }
    Ok(f)
}

// ---------------------------------------------------------------------------
// Sorted name lists

/// Lexicographic order of names by character (code point) values, the order of
/// `String`'s `Ord` (UTF-8 byte order follows code point order).
pub open spec fn str_lt(a: Seq<char>, b: Seq<char>) -> bool
    decreases a.len(),
{
    if b.len() == 0 {
        false
    } else if a.len() == 0 {
        true
    } else if a[0] != b[0] {
        (a[0] as int) < (b[0] as int)
    } else {
        str_lt(a.drop_first(), b.drop_first())
    }
}

proof fn lemma_push_contains(s: Seq<Seq<char>>, y: Seq<char>, x: Seq<char>)
    ensures
        s.push(y).contains(x) <==> s.contains(x) || x == y,
{
    if s.contains(x) {
        let j = choose|j: int| 0 <= j < s.len() && s[j] == x;
        assert(s.push(y)[j] == x);
    }
    if x == y {
        assert(s.push(y)[s.len() as int] == x);
    }
    if s.push(y).contains(x) {
        let j = choose|j: int| 0 <= j < s.len() + 1 && s.push(y)[j] == x;
        if j < s.len() {
            assert(s[j] == x);
        }
    }
}

/// Sorted, duplicates allowed.
pub open spec fn sorted_le(s: Seq<Seq<char>>) -> bool {
    forall|i: int, j: int| 0 <= i < j < s.len() ==> !str_lt(#[trigger] s[j], #[trigger] s[i])
}

/// Strictly increasing (sorted, no duplicates).
pub open spec fn sorted_lt(s: Seq<Seq<char>>) -> bool {
    forall|i: int, j: int| 0 <= i < j < s.len() ==> str_lt(#[trigger] s[i], #[trigger] s[j])
}

proof fn lemma_lt_irrefl(a: Seq<char>)
    ensures
        !str_lt(a, a),
    decreases a.len(),
{
    if a.len() > 0 {
        lemma_lt_irrefl(a.drop_first());
    }
}

proof fn lemma_lt_trans(a: Seq<char>, b: Seq<char>, c: Seq<char>)
    requires
        str_lt(a, b),
        str_lt(b, c),
    ensures
        str_lt(a, c),
    decreases a.len(),
{
    if a.len() > 0 && b.len() > 0 && c.len() > 0 && a[0] == b[0] && b[0] == c[0] {
        lemma_lt_trans(a.drop_first(), b.drop_first(), c.drop_first());
    }
}

proof fn lemma_lt_total(a: Seq<char>, b: Seq<char>)
    requires
        a != b,
    ensures
        str_lt(a, b) || str_lt(b, a),
    decreases a.len(),
{
    if a.len() > 0 && b.len() > 0 && a[0] == b[0] {
        if a.drop_first() == b.drop_first() {
            assert(a =~= seq![a[0]] + a.drop_first());
            assert(b =~= seq![b[0]] + b.drop_first());
        }
        lemma_lt_total(a.drop_first(), b.drop_first());
    } else if a.len() == 0 && b.len() == 0 {
        assert(a =~= b);
    } else if a.len() > 0 && b.len() > 0 {
        assert((a[0] as int) != (b[0] as int));
    }
}

proof fn lemma_sorted_lt_no_dup(s: Seq<Seq<char>>)
    requires
        sorted_lt(s),
    ensures
        s.no_duplicates(),
{
    assert forall|i: int, j: int| 0 <= i < s.len() && 0 <= j < s.len() && i != j implies s[i] != s[j] by {
        if i < j {
            assert(str_lt(s[i], s[j]));
            lemma_lt_irrefl(s[i]);
        } else {
            assert(str_lt(s[j], s[i]));
            lemma_lt_irrefl(s[i]);
        }
    }
}

/// Sorts `v` with `slice::sort`. The result is a permutation of the input, in
/// `String`'s order: UTF-8 bytes compared lexicographically, which is `str_lt`
/// on the characters.
#[verifier::external_body]
fn sort_strings(v: &mut Vec<String>)
    ensures
        strings(final(v)@).to_multiset() == strings(old(v)@).to_multiset(),
        sorted_le(strings(final(v)@)),
{
    v.sort();
}

/// Drops repeated names from a sorted list.
fn dedup_sorted(v: &Vec<String>) -> (r: Vec<String>)
    requires
        sorted_le(strings(v@)),
    ensures
        sorted_lt(strings(r@)),
        forall|x: Seq<char>| #[trigger] strings(r@).contains(x) <==> strings(v@).contains(x),
{
    let ghost sv = strings(v@);
    let mut r: Vec<String> = Vec::new();
    let mut k: usize = 0;
    while k < v.len()
        invariant
            sv == strings(v@),
            sorted_le(sv),
            k <= v@.len(),
            sorted_lt(strings(r@)),
            k > 0 ==> r@.len() > 0 && strings(r@).last() == sv[k - 1],
            k == 0 ==> r@.len() == 0,
            forall|x: Seq<char>| #[trigger] strings(r@).contains(x) <==> sv.take(k as int).contains(x),
        decreases v@.len() - k,
    {
        let ghost sr = strings(r@);
        if r.len() == 0 || r[r.len() - 1] != v[k] {
            r.push(v[k].clone());
            proof {
                let nr = strings(r@);
                assert(nr =~= sr.push(sv[k as int]));
                if k > 0 {
                    assert(!str_lt(sv[k as int], sv[k - 1]));
                    lemma_lt_total(sv[k - 1], sv[k as int]);
                    assert forall|i: int, j: int| 0 <= i < j < nr.len() implies str_lt(#[trigger] nr[i], #[trigger] nr[j]) by {
                        if j == nr.len() - 1 && i < j - 1 {
                            assert(str_lt(sr[i], sr[sr.len() - 1]));
                            lemma_lt_trans(sr[i], sr[sr.len() - 1], sv[k as int]);
                        } else if j < nr.len() - 1 {
                            assert(nr[i] == sr[i] && nr[j] == sr[j]);
                        }
                    }
                }
                assert(sv.take(k + 1) =~= sv.take(k as int).push(sv[k as int]));
                assert forall|x: Seq<char>| #[trigger] nr.contains(x) <==> sv.take(k + 1).contains(x) by {
                    lemma_push_contains(sr, sv[k as int], x);
                    lemma_push_contains(sv.take(k as int), sv[k as int], x);
                }
            }
        } else {
            proof {
                assert(sv.take(k + 1) =~= sv.take(k as int).push(sv[k as int]));
                assert forall|x: Seq<char>| #[trigger] sr.contains(x) <==> sv.take(k + 1).contains(x) by {
                    if sv.take(k + 1).contains(x) {
                        let j = choose|j: int| 0 <= j < k + 1 && #[trigger] sv.take(k + 1)[j] == x;
                        if j < k {
                            assert(sv.take(k as int).contains(x));
                        } else {
                            assert(sr[sr.len() - 1] == x);
                        }
                    }
                    if sr.contains(x) {
                        assert(sv.take(k as int).contains(x));
                        let j = choose|j: int| 0 <= j < k && #[trigger] sv.take(k as int)[j] == x;
                        assert(sv.take(k + 1)[j] == x);
                    }
                }
            }
        }
        k += 1;
    }
    assert(sv.take(v@.len() as int) =~= sv);
    r
}

/// The names of the strictly sorted `v` that are (`keep_common`) or are not in `other`.
fn select(v: &Vec<String>, other: &Vec<String>, keep_common: bool) -> (r: Vec<String>)
    requires
        sorted_lt(strings(v@)),
    ensures
        sorted_lt(strings(r@)),
        forall|x: Seq<char>| #[trigger] strings(r@).contains(x) <==> strings(v@).contains(x)
            && strings(other@).contains(x) == keep_common,
{
    let ghost sv = strings(v@);
    let mut r: Vec<String> = Vec::new();
    let mut k: usize = 0;
    while k < v.len()
        invariant
            sv == strings(v@),
            sorted_lt(sv),
            k <= v@.len(),
            sorted_lt(strings(r@)),
            forall|j: int| 0 <= j < r@.len() ==> exists|i: int| 0 <= i < k && #[trigger] sv[i] == #[trigger] strings(r@)[j],
            forall|x: Seq<char>| #[trigger] strings(r@).contains(x) <==> sv.take(k as int).contains(x)
                && strings(other@).contains(x) == keep_common,
        decreases v@.len() - k,
    {
        let ghost sr = strings(r@);
        let inside = contains_string(other, &v[k]);
        if inside == keep_common {
            r.push(v[k].clone());
            proof {
                let nr = strings(r@);
                assert(nr =~= sr.push(sv[k as int]));
                assert forall|i: int, j: int| 0 <= i < j < nr.len() implies str_lt(#[trigger] nr[i], #[trigger] nr[j]) by {
                    if j == nr.len() - 1 {
                        let i0 = choose|i0: int| 0 <= i0 < k && #[trigger] sv[i0] == sr[i];
                        assert(str_lt(sv[i0], sv[k as int]));
                    } else {
                        assert(nr[i] == sr[i] && nr[j] == sr[j]);
                    }
                }
                assert forall|j: int| 0 <= j < nr.len() implies exists|i: int| 0 <= i < k + 1 && #[trigger] sv[i] == #[trigger] nr[j] by {
                    if j < sr.len() {
                        let i0 = choose|i0: int| 0 <= i0 < k && #[trigger] sv[i0] == sr[j];
                        assert(sv[i0] == nr[j]);
                    } else {
                        assert(sv[k as int] == nr[j]);
                    }
                }
            }
        }
        proof {
            let nr = strings(r@);
            assert(sv.take(k + 1) =~= sv.take(k as int).push(sv[k as int]));
            assert forall|x: Seq<char>| #[trigger] nr.contains(x) <==> sv.take(k + 1).contains(x)
                && strings(other@).contains(x) == keep_common by {
                if nr.contains(x) {
                    let j = choose|j: int| 0 <= j < nr.len() && nr[j] == x;
                    if j < sr.len() {
                        assert(sr.contains(x));
                        let i0 = choose|i0: int| 0 <= i0 < k && #[trigger] sv.take(k as int)[i0] == x;
                        assert(sv.take(k + 1)[i0] == x);
                    } else {
                        assert(sv.take(k + 1)[k as int] == x);
                    }
                }
                if sv.take(k + 1).contains(x) && strings(other@).contains(x) == keep_common {
                    let j = choose|j: int| 0 <= j < k + 1 && #[trigger] sv.take(k + 1)[j] == x;
                    if j < k {
                        assert(sv.take(k as int)[j] == x);
                        assert(sr.contains(x));
                        let j2 = choose|j2: int| 0 <= j2 < sr.len() && sr[j2] == x;
                        assert(nr[j2] == x);
                    } else {
                        assert(nr[nr.len() - 1] == x);
                    }
                }
            }
        }
        k += 1;
    }
    assert(sv.take(v@.len() as int) =~= sv);
    r
}

// ---------------------------------------------------------------------------
// Endpoints

/// `net` is on pin `q` of register instance `i`, a pin with setup constraints
/// (a flop data pin).
pub open spec fn reg_data(nl: Netlist, lib: Lib, i: int, q: int, net: Seq<char>) -> bool {
    &&& 0 <= i < nl.insts@.len()
    &&& match first_index(cell_names(lib), nl.insts@[i].cell@) {
        Some(c) => {
            &&& lib.cells@[c].is_seq
            &&& 0 <= q < lib.cells@[c].pins@.len()
            &&& lib.cells@[c].pins@[q].has_setup
            &&& net_of_spec(nl.insts@[i], lib.cells@[c].pins@[q].name@) == Some(net)
        },
        None => false,
    }
}

/// An endpoint to compare: a primary output or a flop data net.
pub open spec fn is_endpoint(nl: Netlist, lib: Lib, net: Seq<char>) -> bool {
    strings(nl.outputs@).contains(net) || exists|i: int, q: int| #[trigger] reg_data(nl, lib, i, q, net)
}

impl<'a> Design<'a> {
    /// Endpoints to compare: primary outputs and flop data pins, sorted, each once.
    fn endpoints(&self) -> (r: Vec<String>)
        requires
            self.wf(),
        ensures
            sorted_lt(strings(r@)),
            forall|x: Seq<char>| #[trigger] strings(r@).contains(x) <==> is_endpoint(*self.nl, *self.lib, x),
    {
        let ghost nl = *self.nl;
        let ghost lib = *self.lib;
        let mut e: Vec<String> = Vec::new();
        let mut k: usize = 0;
        while k < self.nl.outputs.len()
            invariant
                nl == *self.nl,
                k <= nl.outputs@.len(),
                strings(e@) == strings(nl.outputs@).take(k as int),
            decreases nl.outputs@.len() - k,
        {
            let ghost e0 = e@;
            let o = self.nl.outputs[k].clone();
            assert(o@ == nl.outputs@[k as int]@);
            e.push(o);
            assert(e@ == e0.push(o));
            assert(strings(e0).len() == k);
            assert(e0.len() == k);
            assert(strings(e@).len() == k + 1);
            assert(strings(e@)[k as int] == o@);
            assert forall|j: int| 0 <= j < k + 1 implies #[trigger] strings(e@)[j] == strings(nl.outputs@)[j] by {
                if j < k {
                    assert(strings(e0)[j] == strings(nl.outputs@).take(k as int)[j]);
                    assert(strings(e@)[j] == strings(e0)[j]);
                }
            }
            assert(strings(e@) =~= strings(nl.outputs@).take(k + 1));
            k += 1;
        }
        assert(strings(e@) =~= strings(nl.outputs@));
        let mut i: usize = 0;
        while i < self.nl.insts.len()
            invariant
                nl == *self.nl,
                lib == *self.lib,
                i <= nl.insts@.len(),
                forall|x: Seq<char>| #[trigger] strings(e@).contains(x) <==> strings(nl.outputs@).contains(x) || exists|
                    i0: int,
                    q: int,
                | 0 <= i0 < i && #[trigger] reg_data(nl, lib, i0, q, x),
            decreases nl.insts@.len() - i,
        {
            let inst = &self.nl.insts[i];
            let ghost e0 = strings(e@);
            match find_cell(self.lib, &inst.cell) {
                Some(c) => {
                    let cell = &self.lib.cells[c];
                    if cell.is_seq {
                        let mut q: usize = 0;
                        while q < cell.pins.len()
                            invariant
                                nl == *self.nl,
                                lib == *self.lib,
                                i < nl.insts@.len(),
                                *inst == nl.insts@[i as int],
                                c < lib.cells@.len(),
                                *cell == lib.cells@[c as int],
                                first_index(cell_names(lib), inst.cell@) == Some(c as int),
                                cell.is_seq,
                                q <= cell.pins@.len(),
                                forall|x: Seq<char>| #[trigger] strings(e@).contains(x) <==> e0.contains(x) || exists|
                                    q0: int,
                                | 0 <= q0 < q && #[trigger] reg_data(nl, lib, i as int, q0, x),
                            decreases cell.pins@.len() - q,
                        {
                            let p = &cell.pins[q];
                            let ghost e1 = strings(e@);
                            if p.has_setup {
                                match net_of(inst, &p.name) {
                                    Some(n) => {
                                        e.push(n.clone());
                                        proof {
                                            assert(strings(e@) =~= e1.push(n@));
                                            assert forall|x: Seq<char>| #[trigger] strings(e@).contains(x) <==> e0.contains(x)
                                                || exists|q0: int| 0 <= q0 < q + 1 && #[trigger] reg_data(nl, lib, i as int, q0, x) by {
                                                lemma_push_contains(e1, n@, x);
                                                if x == n@ {
                                                    assert(reg_data(nl, lib, i as int, q as int, x));
                                                }
                                                if exists|q0: int| 0 <= q0 < q + 1 && #[trigger] reg_data(nl, lib, i as int, q0, x) {
                                                    let q0 = choose|q0: int| 0 <= q0 < q + 1 && #[trigger] reg_data(nl, lib, i as int, q0, x);
                                                    if q0 == q {
                                                        assert(x == n@);
                                                    }
                                                }
                                            }
                                        }
                                    },
                                    None => {
                                        proof {
                                            assert forall|x: Seq<char>| !#[trigger] reg_data(nl, lib, i as int, q as int, x) by {}
                                        }
                                    },
                                }
                            } else {
                                proof {
                                    assert forall|x: Seq<char>| !#[trigger] reg_data(nl, lib, i as int, q as int, x) by {}
                                }
                            }
                            q += 1;
                        }
                        proof {
                            assert forall|x: Seq<char>| #[trigger] strings(e@).contains(x) <==> strings(nl.outputs@).contains(x)
                                || exists|i0: int, q0: int| 0 <= i0 < i + 1 && #[trigger] reg_data(nl, lib, i0, q0, x) by {
                                if exists|i0: int, q0: int| 0 <= i0 < i + 1 && #[trigger] reg_data(nl, lib, i0, q0, x) {
                                    let (i0, q0) = choose|i0: int, q0: int| 0 <= i0 < i + 1 && #[trigger] reg_data(nl, lib, i0, q0, x);
                                    if i0 == i {
                                        assert(0 <= q0 < cell.pins@.len());
                                    }
                                }
                            }
                        }
                    } else {
                        proof {
                            assert forall|x: Seq<char>, q0: int| !#[trigger] reg_data(nl, lib, i as int, q0, x) by {}
                        }
                    }
                },
                None => {
                    proof {
                        assert forall|x: Seq<char>, q0: int| !#[trigger] reg_data(nl, lib, i as int, q0, x) by {}
                    }
                },
            }
            i += 1;
        }
        let ghost before = strings(e@);
        sort_strings(&mut e);
        let r = dedup_sorted(&e);
        proof {
            assert forall|x: Seq<char>| #[trigger] strings(r@).contains(x) <==> is_endpoint(nl, lib, x) by {
                vstd::seq_lib::to_multiset_contains(strings(e@), x);
                vstd::seq_lib::to_multiset_contains(before, x);
            }
        }
        r
    }
}

// ---------------------------------------------------------------------------
// Comparing the two designs

/// The two designs compute different functions at `net`: some free-net
/// assignment gives it different values.
pub open spec fn differs(golden: Netlist, revised: Netlist, lib: Lib, net: Seq<char>) -> bool {
    exists|a: spec_fn(Seq<char>) -> bool| #[trigger]
        net_value(golden, lib, net, a) != net_value(revised, lib, net, a)
}

/// Both designs have a function at `net` (no loop, only known primitives).
pub open spec fn both_defined(golden: Netlist, revised: Netlist, lib: Lib, net: Seq<char>) -> bool {
    forall|a: spec_fn(Seq<char>) -> bool| #[trigger]
        net_value(golden, lib, net, a) is Some && net_value(revised, lib, net, a) is Some
}

/// The net assignment `a` agrees with every `(net, value)` pair of `cex`.
pub open spec fn agrees(a: spec_fn(Seq<char>) -> bool, cex: Seq<(String, bool)>) -> bool {
    forall|k: int| 0 <= k < cex.len() ==> a(#[trigger] cex[k].0@) == cex[k].1
}

/// The counter-example of `m` names free nets of the designs, each once; some
/// assignment agrees with it, and every assignment that agrees with it makes the
/// designs differ at `m`'s endpoint.
pub open spec fn mismatch_ok(golden: Netlist, revised: Netlist, lib: Lib, m: Mismatch) -> bool {
    &&& forall|k: int|
        0 <= k < m.counterexample@.len() ==> free_names(golden, revised, lib).contains(#[trigger] m.counterexample@[k].0@)
    &&& forall|i: int, j: int|
        0 <= i < j < m.counterexample@.len() ==> #[trigger] m.counterexample@[i].0@ != #[trigger] m.counterexample@[j].0@
    &&& exists|a: spec_fn(Seq<char>) -> bool| agrees(a, m.counterexample@)
    &&& forall|a: spec_fn(Seq<char>) -> bool|
        agrees(a, m.counterexample@) ==> #[trigger] net_value(golden, lib, m.endpoint@, a) != net_value(
            revised,
            lib,
            m.endpoint@,
            a,
        )
}

fn fresh_tables(n: usize) -> (r: (Vec<Option<u32>>, Vec<bool>))
    ensures
        r.0@.len() == n,
        r.1@.len() == n,
        forall|e: int| 0 <= e < n ==> (#[trigger] r.0@[e]) is None,
        forall|e: int| 0 <= e < n ==> !(#[trigger] r.1@[e]),
{
    let mut memo: Vec<Option<u32>> = Vec::new();
    let mut flags: Vec<bool> = Vec::new();
    let mut k: usize = 0;
    while k < n
        invariant
            k <= n,
            memo@.len() == k,
            flags@.len() == k,
            forall|e: int| 0 <= e < k ==> (#[trigger] memo@[e]) is None,
            forall|e: int| 0 <= e < k ==> !(#[trigger] flags@[e]),
        decreases n - k,
    {
        memo.push(None);
        flags.push(false);
        k += 1;
    }
    (memo, flags)
}

/// Build endpoint `ep` in both designs and compare: `Some` mismatch with a
/// counter-example when the two functions differ.
fn compare_endpoint(
    ep: &String,
    g: &Design,
    r: &Design,
    bdd: &mut Bdd,
    vars: &mut Vars,
) -> (res: Result<Option<Mismatch>, String>)
    requires
        g.wf(),
        r.wf(),
        g.lib == r.lib,
        old(bdd).wf(),
        old(vars).wf(),
        old(bdd).vars_below(old(vars).names().len()),
        net_names(*g.nl).contains(ep@),
        net_names(*r.nl).contains(ep@),
        drawn_from(old(vars).names(), Seq::empty(), free_names(*g.nl, *r.nl, *g.lib)),
    ensures
        final(bdd).wf(),
        final(bdd).extends(*old(bdd)),
        final(bdd).covers(*old(bdd)),
        final(vars).wf(),
        is_prefix(old(vars).names(), final(vars).names()),
        drawn_from(final(vars).names(), old(vars).names(), free_names(*g.nl, *r.nl, *g.lib)),
        final(bdd).vars_below(final(vars).names().len()),
        res matches Ok(Some(mm)) ==> mm.endpoint@ == ep@,
        res matches Err(m) ==> (m@ == vars_full_message() && final(vars).names().len() == VAR_CAPACITY)
            || (m@ == bdd_full_message() && final(bdd).full() && forall|n: nat| #[trigger] final(bdd).vars_below(n)
            ==> final(bdd).size() <= old(bdd).size() + endpoint_cost(*g.nl, *r.nl, *g.lib, n)) || (gate_error(m@) && (
        undefined(*g.nl, *g.lib, ep@) || undefined(*r.nl, *r.lib, ep@))),
        res is Ok ==> forall|n: nat| #[trigger] final(bdd).vars_below(n) ==> final(bdd).size() <= old(bdd).size()
            + endpoint_cost(*g.nl, *r.nl, *g.lib, n),
        res matches Ok(m) ==> !final(bdd).full() ==> {
            &&& both_defined(*g.nl, *r.nl, *g.lib, ep@)
            &&& (m is Some <==> differs(*g.nl, *r.nl, *g.lib, ep@))
            &&& m matches Some(mm) ==> mismatch_ok(*g.nl, *r.nl, *g.lib, mm)
        },
{
    let ghost golden = *g.nl;
    let ghost revised = *r.nl;
    let ghost lib = *g.lib;
    let ghost b0 = *bdd;
    let (mut gm, mut gp) = fresh_tables(g.driver.len());
    let ghost gm0 = gm@;
    let ghost n0 = vars.names();
    let fg = match build(ep, g, bdd, vars, &mut gm, &mut gp, Ghost(Seq::empty())) {
        Ok(f) => f,
        Err(m) => {
            proof {
                lemma_drawn_trans(n0, vars.names(), vars.names(), free_nets(golden, lib), free_nets(revised, lib));
            }
            return Err(m);
        },
    };
    let ghost b1 = *bdd;
    let ghost n1 = vars.names();
    proof {
        lemma_count_some_none(gm0);
        lemma_count_some_le(gm@);
    }
    let (mut rm, mut rp) = fresh_tables(r.driver.len());
    let ghost rm0 = rm@;
    let fr = match build(ep, r, bdd, vars, &mut rm, &mut rp, Ghost(Seq::empty())) {
        Ok(f) => f,
        Err(m) => {
            proof {
                Bdd::lemma_extends_trans(b0, b1, *bdd);
                lemma_drawn_trans(n0, n1, vars.names(), free_nets(golden, lib), free_nets(revised, lib));
            }
            return Err(m);
        },
    };
    let ghost b2 = *bdd;
    let ghost names = vars.names();
    proof {
        lemma_count_some_none(rm0);
        lemma_count_some_le(rm@);
        assert forall|n: nat| #[trigger] b2.vars_below(n) implies b2.size() + 2 * pow2(n) <= b0.size()
            + endpoint_cost(golden, revised, lib, n) by {
            assert(b1.vars_below(n));
            let cc = gate_cost(lib, n) as int;
            let dg = g.driver@.len() as int;
            let dr = r.driver@.len() as int;
            let cg = count_some(gm@) as int;
            let cr = count_some(rm@) as int;
            assert(cg * cc <= dg * cc) by (nonlinear_arith)
                requires
                    cg <= dg,
                    0 <= cc,
            ;
            assert(cr * cc <= dr * cc) by (nonlinear_arith)
                requires
                    cr <= dr,
                    0 <= cc,
            ;
            assert(dg * cc + dr * cc == (dg + dr) * cc) by (nonlinear_arith);
        }
        lemma_drawn_trans(n0, n1, names, free_nets(golden, lib), free_nets(revised, lib));
        Bdd::lemma_extends_trans(b0, b1, b2);
        lemma_net_ok_mono(golden, lib, b1, n1, b2, names, ep@, fg);
        assert(is_prefix(names, names));
        if !b2.full() {
            assert forall|a: spec_fn(Seq<char>) -> bool| #[trigger]
                net_value(golden, lib, ep@, a) is Some && net_value(revised, lib, ep@, a) is Some by {
                assert(net_value(golden, lib, ep@, a) == Some(b2.eval(fg, var_env(names, a))));
                assert(net_value(revised, lib, ep@, a) == Some(b2.eval(fr, var_env(names, a))));
            }
        }
    }
    if fg == fr {
        proof {
            if !b2.full() {
                assert forall|a: spec_fn(Seq<char>) -> bool| #[trigger]
                    net_value(golden, lib, ep@, a) == net_value(revised, lib, ep@, a) by {
                    assert(net_value(golden, lib, ep@, a) == Some(b2.eval(fg, var_env(names, a))));
                    assert(net_value(revised, lib, ep@, a) == Some(b2.eval(fr, var_env(names, a))));
                }
            }
        }
        return Ok(None);
    }
    let miter = bdd.xor(fg, fr);
    let ghost b3 = *bdd;
    proof {
        assert forall|n: nat| #[trigger] b3.vars_below(n) implies b3.size() <= b0.size() + endpoint_cost(
            golden,
            revised,
            lib,
            n,
        ) by {
            assert(b2.vars_below(n));
        }
        Bdd::lemma_extends_trans(b0, b2, b3);
        if !b3.full() {
            assert forall|env: spec_fn(u32) -> bool| #[trigger]
                b3.eval(miter, env) == (b3.eval(fg, env) != b3.eval(fr, env)) by {
                assert(b2.eval(fg, env) == b3.eval(fg, env));
                assert(b2.eval(fr, env) == b3.eval(fr, env));
            }
            b3.lemma_miter(fg, fr, miter);
        }
    }
    let cube = match bdd.sat_one(miter) {
        Some(c) => c,
        None => Vec::new(),
    };
    let mut cex: Vec<(String, bool)> = Vec::new();
    let mut t: usize = 0;
    while t < cube.len()
        invariant
            vars.wf(),
            names == vars.names(),
            b3 == *bdd,
            forall|n: nat| #[trigger] b3.vars_below(n) ==> b3.size() <= old(bdd).size() + endpoint_cost(
                *g.nl,
                *r.nl,
                *g.lib,
                n,
            ),
            bdd.wf(),
            bdd.extends(*old(bdd)),
            bdd.covers(*old(bdd)),
            is_prefix(old(vars).names(), names),
            drawn_from(names, old(vars).names(), free_names(*g.nl, *r.nl, *g.lib)),
            bdd.vars_below(names.len()),
            t <= cube@.len(),
            cex@.len() == t,
            !b3.full() ==> forall|n: nat, k: int|
                #[trigger] b3.vars_below(n) && 0 <= k < cube@.len() ==> #[trigger] cube@[k].0 < n,
            forall|j: int| 0 <= j < t ==> (#[trigger] cex@[j]).0@ == names[cube@[j].0 as int] && cex@[j].1 == cube@[j].1,
        decreases cube@.len() - t,
    {
        let (v, val) = cube[t];
        proof {
            if !b3.full() {
                assert(cube@[t as int].0 < names.len());
            }
        }
        if v as usize >= vars.rev.len() {
            return Err(bdd_full_error());
        }
        let ghost prev = cex@;
        cex.push((vars.name(v).clone(), val));
        proof {
            assert forall|j: int| 0 <= j < t + 1 implies (#[trigger] cex@[j]).0@ == names[cube@[j].0 as int]
                && cex@[j].1 == cube@[j].1 by {
                if j < t {
                    assert(cex@[j] == prev[j]);
                }
            }
        }
        t += 1;
    }
    let m = Mismatch { endpoint: ep.clone(), counterexample: cex };
    proof {
        if !b3.full() {
            let cube_s = cube@;
            assert(miter != 0);
            assert forall|a: spec_fn(Seq<char>) -> bool| agrees(a, m.counterexample@) implies #[trigger] net_value(
                golden,
                lib,
                m.endpoint@,
                a,
            ) != net_value(revised, lib, m.endpoint@, a) by {
                let env = var_env(names, a);
                assert forall|k: int| 0 <= k < cube_s.len() implies env(#[trigger] cube_s[k].0) == cube_s[k].1 by {
                    assert(cube_s[k].0 < names.len());
                    assert(a(cex@[k].0@) == cex@[k].1);
                }
                assert(b3.eval(miter, env));
                assert(net_value(golden, lib, ep@, a) == Some(b2.eval(fg, var_env(names, a))));
                assert(net_value(revised, lib, ep@, a) == Some(b2.eval(fr, var_env(names, a))));
                assert(b2.eval(fg, env) == b3.eval(fg, env));
                assert(b2.eval(fr, env) == b3.eval(fr, env));
            }
            let cs = cex@;
            assert forall|k: int| 0 <= k < cs.len() implies free_names(golden, revised, lib).contains(
                #[trigger] cs[k].0@,
            ) by {
                assert(cube_s[k].0 < names.len());
                assert(names.contains(names[cube_s[k].0 as int]));
            }
            assert forall|i: int, j: int| 0 <= i < j < cs.len() implies #[trigger] cs[i].0@ != #[trigger] cs[j].0@ by {
                assert(cube_s[i].0 < cube_s[j].0);
                assert(cube_s[i].0 < names.len() && cube_s[j].0 < names.len());
                assert(names.no_duplicates());
            }
            let a0 = |nm: Seq<char>| exists|j: int| 0 <= j < cs.len() && (#[trigger] cs[j]).0@ == nm && cs[j].1;
            assert forall|k: int| 0 <= k < cs.len() implies a0(#[trigger] cs[k].0@) == cs[k].1 by {
                if !cs[k].1 {
                    if a0(cs[k].0@) {
                        let j = choose|j: int| 0 <= j < cs.len() && (#[trigger] cs[j]).0@ == cs[k].0@ && cs[j].1;
                        assert(names[cube_s[j].0 as int] == names[cube_s[k].0 as int]);
                        assert(cube_s[j].0 < names.len() && cube_s[k].0 < names.len());
                        assert(cube_s[j].0 == cube_s[k].0);
                        if j < k {
                            assert(cube_s[j].0 < cube_s[k].0);
                        } else if k < j {
                            assert(cube_s[k].0 < cube_s[j].0);
                        }
                    }
                } else {
                    assert(cs[k].0@ == cs[k].0@);
                }
            }
            assert(agrees(a0, m.counterexample@));
            assert(net_value(golden, lib, ep@, a0) != net_value(revised, lib, ep@, a0));
        }
    }
    Ok(Some(m))
}

/// `net` is an endpoint of both designs.
pub open spec fn shared_ep(golden: Netlist, revised: Netlist, lib: Lib, net: Seq<char>) -> bool {
    is_endpoint(golden, lib, net) && is_endpoint(revised, lib, net)
}

/// The endpoints of both designs.
pub open spec fn shared_set(golden: Netlist, revised: Netlist, lib: Lib) -> Set<Seq<char>> {
    Set::new(|x: Seq<char>| shared_ep(golden, revised, lib, x))
}

pub open spec fn mismatch_endpoints(ms: Seq<Mismatch>) -> Seq<Seq<char>> {
    ms.map_values(|m: Mismatch| m.endpoint@)
}

/// What an equivalence report says of the golden and the revised design.
pub open spec fn report_ok(golden: Netlist, revised: Netlist, lib: Lib, rep: LecReport) -> bool {
    &&& sorted_lt(strings(rep.only_in_golden@))
    &&& forall|x: Seq<char>| #[trigger] strings(rep.only_in_golden@).contains(x) <==> is_endpoint(golden, lib, x)
        && !is_endpoint(revised, lib, x)
    &&& sorted_lt(strings(rep.only_in_revised@))
    &&& forall|x: Seq<char>| #[trigger] strings(rep.only_in_revised@).contains(x) <==> is_endpoint(revised, lib, x)
        && !is_endpoint(golden, lib, x)
    &&& shared_set(golden, revised, lib).finite()
    &&& rep.compared == shared_set(golden, revised, lib).len()
    &&& forall|x: Seq<char>| #[trigger] shared_ep(golden, revised, lib, x) ==> both_defined(golden, revised, lib, x)
    &&& sorted_lt(mismatch_endpoints(rep.mismatches@))
    &&& forall|x: Seq<char>| #[trigger] mismatch_endpoints(rep.mismatches@).contains(x) <==> shared_ep(golden, revised, lib, x)
        && differs(golden, revised, lib, x)
    &&& forall|k: int| 0 <= k < rep.mismatches@.len() ==> mismatch_ok(golden, revised, lib, #[trigger] rep.mismatches@[k])
    &&& rep.equivalent == (rep.mismatches@.len() == 0 && rep.only_in_golden@.len() == 0
        && rep.only_in_revised@.len() == 0)
}

/// The central law of the check: a report says "equivalent" exactly when the two
/// designs have the same endpoints and compute the same function at each of them.
pub proof fn lemma_equivalent_iff_same_functions(golden: Netlist, revised: Netlist, lib: Lib, rep: LecReport)
    requires
        report_ok(golden, revised, lib, rep),
    ensures
        rep.equivalent <==> (forall|x: Seq<char>| #[trigger] is_endpoint(golden, lib, x) == is_endpoint(revised, lib, x))
            && (forall|x: Seq<char>| #[trigger] shared_ep(golden, revised, lib, x) ==> !differs(golden, revised, lib, x)),
{
    let og = strings(rep.only_in_golden@);
    let orv = strings(rep.only_in_revised@);
    let me = mismatch_endpoints(rep.mismatches@);
    if rep.equivalent {
        assert forall|x: Seq<char>| #[trigger] is_endpoint(golden, lib, x) == is_endpoint(revised, lib, x) by {
            assert(!og.contains(x));
            assert(!orv.contains(x));
        }
        assert forall|x: Seq<char>| #[trigger] shared_ep(golden, revised, lib, x) implies !differs(golden, revised, lib, x) by {
            assert(!me.contains(x));
        }
    } else {
        if rep.mismatches@.len() != 0 {
            let x = me[0];
            assert(me.contains(x));
            assert(shared_ep(golden, revised, lib, x) && differs(golden, revised, lib, x));
        } else if rep.only_in_golden@.len() != 0 {
            let x = og[0];
            assert(og.contains(x));
            assert(is_endpoint(golden, lib, x) != is_endpoint(revised, lib, x));
        } else {
            let x = orv[0];
            assert(orv.contains(x));
            assert(is_endpoint(golden, lib, x) != is_endpoint(revised, lib, x));
        }
    }
}

/// Reflexivity: a report on a design against itself says "equivalent".
pub proof fn lemma_self_equivalent(design: Netlist, lib: Lib, rep: LecReport)
    requires
        report_ok(design, design, lib, rep),
    ensures
        rep.equivalent,
{
    assert forall|x: Seq<char>| #[trigger] shared_ep(design, design, lib, x) implies !differs(design, design, lib, x) by {}
    lemma_equivalent_iff_same_functions(design, design, lib, rep);
}

/// Two strictly sorted lists of the same names are the same list.
proof fn lemma_sorted_unique(s: Seq<Seq<char>>, t: Seq<Seq<char>>)
    requires
        sorted_lt(s),
        sorted_lt(t),
        forall|x: Seq<char>| s.contains(x) <==> t.contains(x),
    ensures
        s == t,
    decreases s.len(),
{
    if s.len() == 0 {
        if t.len() > 0 {
            assert(t.contains(t[0]));
        }
        assert(s =~= t);
    } else {
        assert(s.contains(s[0]));
        assert(t.len() > 0);
        assert(t.contains(t[0]));
        let j = choose|j: int| 0 <= j < t.len() && t[j] == s[0];
        let i = choose|i: int| 0 <= i < s.len() && s[i] == t[0];
        if s[0] != t[0] {
            assert(j > 0 && i > 0);
            assert(str_lt(t[0], t[j]));
            assert(str_lt(s[0], s[i]));
            lemma_lt_trans(s[0], t[0], s[0]);
            lemma_lt_irrefl(s[0]);
        }
        let s1 = s.drop_first();
        let t1 = t.drop_first();
        assert forall|x: Seq<char>| s1.contains(x) <==> t1.contains(x) by {
            if s1.contains(x) {
                let k = choose|k: int| 0 <= k < s1.len() && s1[k] == x;
                assert(str_lt(s[0], s[k + 1]));
                assert(t.contains(x));
                let m = choose|m: int| 0 <= m < t.len() && t[m] == x;
                if m == 0 {
                    lemma_lt_irrefl(x);
                }
                assert(t1[m - 1] == x);
            }
            if t1.contains(x) {
                let k = choose|k: int| 0 <= k < t1.len() && t1[k] == x;
                assert(str_lt(t[0], t[k + 1]));
                assert(s.contains(x));
                let m = choose|m: int| 0 <= m < s.len() && s[m] == x;
                if m == 0 {
                    lemma_lt_irrefl(x);
                }
                assert(s1[m - 1] == x);
            }
        }
        assert(sorted_lt(s1)) by {
            assert forall|a: int, b: int| 0 <= a < b < s1.len() implies str_lt(#[trigger] s1[a], #[trigger] s1[b]) by {
                assert(s1[a] == s[a + 1] && s1[b] == s[b + 1]);
            }
        }
        assert(sorted_lt(t1)) by {
            assert forall|a: int, b: int| 0 <= a < b < t1.len() implies str_lt(#[trigger] t1[a], #[trigger] t1[b]) by {
                assert(t1[a] == t[a + 1] && t1[b] == t[b + 1]);
            }
        }
        lemma_sorted_unique(s1, t1);
        assert(s =~= seq![s[0]] + s1);
        assert(t =~= seq![t[0]] + t1);
    }
}

/// Determinism: two reports on the same designs agree on the verdict, the
/// count, the lists of endpoints found in one design and the endpoints that
/// differ (only the counter-examples may differ).
pub proof fn lemma_report_unique(golden: Netlist, revised: Netlist, lib: Lib, rep1: LecReport, rep2: LecReport)
    requires
        report_ok(golden, revised, lib, rep1),
        report_ok(golden, revised, lib, rep2),
    ensures
        rep1.equivalent == rep2.equivalent,
        rep1.compared == rep2.compared,
        strings(rep1.only_in_golden@) == strings(rep2.only_in_golden@),
        strings(rep1.only_in_revised@) == strings(rep2.only_in_revised@),
        mismatch_endpoints(rep1.mismatches@) == mismatch_endpoints(rep2.mismatches@),
{
    lemma_sorted_unique(strings(rep1.only_in_golden@), strings(rep2.only_in_golden@));
    lemma_sorted_unique(strings(rep1.only_in_revised@), strings(rep2.only_in_revised@));
    lemma_sorted_unique(mismatch_endpoints(rep1.mismatches@), mismatch_endpoints(rep2.mismatches@));
}

/// Symmetry: swapping the golden and the revised design swaps the two lists of
/// endpoints found in one design and keeps the verdict, the count and the
/// endpoints that differ.
pub proof fn lemma_report_swap(golden: Netlist, revised: Netlist, lib: Lib, rep1: LecReport, rep2: LecReport)
    requires
        report_ok(golden, revised, lib, rep1),
        report_ok(revised, golden, lib, rep2),
    ensures
        rep1.equivalent == rep2.equivalent,
        rep1.compared == rep2.compared,
        strings(rep1.only_in_golden@) == strings(rep2.only_in_revised@),
        strings(rep1.only_in_revised@) == strings(rep2.only_in_golden@),
        mismatch_endpoints(rep1.mismatches@) == mismatch_endpoints(rep2.mismatches@),
{
    lemma_sorted_unique(strings(rep1.only_in_golden@), strings(rep2.only_in_revised@));
    lemma_sorted_unique(strings(rep1.only_in_revised@), strings(rep2.only_in_golden@));
    assert(shared_set(golden, revised, lib) =~= shared_set(revised, golden, lib));
    assert forall|x: Seq<char>| differs(golden, revised, lib, x) <==> #[trigger] differs(revised, golden, lib, x) by {
        if differs(golden, revised, lib, x) {
            let a = choose|a: spec_fn(Seq<char>) -> bool| #[trigger] net_value(golden, lib, x, a) != net_value(revised, lib, x, a);
            assert(net_value(revised, lib, x, a) != net_value(golden, lib, x, a));
        }
        if differs(revised, golden, lib, x) {
            let a = choose|a: spec_fn(Seq<char>) -> bool| #[trigger] net_value(revised, lib, x, a) != net_value(golden, lib, x, a);
            assert(net_value(golden, lib, x, a) != net_value(revised, lib, x, a));
        }
    }
    let m1 = mismatch_endpoints(rep1.mismatches@);
    let m2 = mismatch_endpoints(rep2.mismatches@);
    assert forall|x: Seq<char>| m1.contains(x) <==> m2.contains(x) by {
        assert(m1.contains(x) <==> shared_ep(golden, revised, lib, x) && differs(golden, revised, lib, x));
        assert(m2.contains(x) <==> shared_ep(revised, golden, lib, x) && differs(revised, golden, lib, x));
    }
    lemma_sorted_unique(m1, m2);
}

fn copy_strings(dst: &mut Vec<String>, src: &Vec<String>)
    ensures
        strings(final(dst)@) == strings(old(dst)@) + strings(src@),
{
    let ghost d0 = strings(dst@);
    let mut k: usize = 0;
    while k < src.len()
        invariant
            k <= src@.len(),
            strings(dst@) == d0 + strings(src@).take(k as int),
        decreases src@.len() - k,
    {
        let ghost prev = dst@;
        let s = src[k].clone();
        dst.push(s);
        proof {
            assert(dst@ == prev.push(s));
            assert(strings(dst@) =~= strings(prev).push(s@));
            assert(strings(dst@) =~= d0 + strings(src@).take(k + 1));
        }
        k += 1;
    }
    assert(strings(src@).take(src@.len() as int) =~= strings(src@));
}

/// Every instance of `nl` uses a cell that `lib` describes.
pub open spec fn cells_known(nl: Netlist, lib: Lib) -> bool {
    forall|i: int| 0 <= i < nl.insts@.len() ==> first_index(cell_names(lib), #[trigger] nl.insts@[i].cell@) is Some
}

/// The error for a Liberty without cells.
pub open spec fn no_cells_message() -> Seq<char> {
    "no cells in the Liberty"@
}

/// `m` reports an instance of `nl` whose cell the Liberty lacks.
pub open spec fn reports_unknown_cell(nl: Netlist, lib: Lib, m: Seq<char>) -> bool {
    exists|i: int|
        0 <= i < nl.insts@.len() && first_index(cell_names(lib), #[trigger] nl.insts@[i].cell@) is None
            && m == unknown_cell_message(nl.insts@[i].cell@)
}

/// The first instance of `nl` whose cell `lib` lacks.
impl Default for LecReport {
    /// An empty report: not equivalent, nothing compared, every list empty.
    fn default() -> (r: Self)
        ensures
            !r.equivalent,
            r.compared == 0,
            r.mismatches@.len() == 0,
            r.only_in_golden@.len() == 0,
            r.only_in_revised@.len() == 0,
    {
        LecReport {
            equivalent: false,
            compared: 0,
            mismatches: Vec::new(),
            only_in_golden: Vec::new(),
            only_in_revised: Vec::new(),
        }
    }
}

fn first_unknown_cell(nl: &Netlist, lib: &Lib) -> (r: Option<usize>)
    ensures
        r is None <==> cells_known(*nl, *lib),
        r matches Some(i) ==> i < nl.insts@.len() && first_index(cell_names(*lib), nl.insts@[i as int].cell@) is None,
{
    let mut i: usize = 0;
    while i < nl.insts.len()
        invariant
            i <= nl.insts@.len(),
            forall|j: int| 0 <= j < i ==> first_index(cell_names(*lib), #[trigger] nl.insts@[j].cell@) is Some,
        decreases nl.insts@.len() - i,
    {
        if find_cell(lib, &nl.insts[i].cell).is_none() {
            return Some(i);
        }
        i += 1;
    }
    None
}

/// Check golden vs revised for combinational equivalence, in a fresh BDD
/// package: `equivalence_in` on `Bdd::new()`.
///
/// Every instance must use a cell of the Liberty. The check then fails only on
/// an endpoint of both designs that has no function in one of them (a
/// combinational loop or a cell that is not a known primitive), or when the
/// shared variable order or the node table fills up. The node table cannot fill
/// while the designs have fewer than five free nets; from five on, handles of
/// 32 bits can run out, and `equivalence_in`, given the package, states that
/// the error comes exactly when its table is full.
pub fn equivalence(golden: &Netlist, revised: &Netlist, lib: &Lib) -> (res: Result<LecReport, String>)
    ensures
        lib.cells@.len() == 0 ==> (res matches Err(m) && m@ == no_cells_message()),
        lib.cells@.len() > 0 && !cells_known(*golden, *lib) ==> (res matches Err(m) && reports_unknown_cell(
            *golden,
            *lib,
            m@,
        )),
        lib.cells@.len() > 0 && cells_known(*golden, *lib) && !cells_known(*revised, *lib) ==> (res matches Err(m)
            && reports_unknown_cell(*revised, *lib, m@)),
        res matches Err(m) ==> lib.cells@.len() == 0 || !cells_known(*golden, *lib) || !cells_known(*revised, *lib)
            || (m@ == vars_full_message() && free_names(*golden, *revised, *lib).len() >= VAR_CAPACITY)
            || (m@ == bdd_full_message() && free_names(*golden, *revised, *lib).len() >= 5 && check_bound(
            *golden,
            *revised,
            *lib,
        ) >= NODE_CAPACITY)
            || (gate_error(m@) && exists|x: Seq<char>|
            #[trigger] shared_ep(*golden, *revised, *lib, x) && (undefined(*golden, *lib, x) || undefined(
                *revised,
                *lib,
                x,
            ))),
        lib.cells@.len() > 0 && cells_known(*golden, *lib) && cells_known(*revised, *lib) && (forall|x: Seq<char>|
            #[trigger] shared_ep(*golden, *revised, *lib, x) ==> both_defined(*golden, *revised, *lib, x))
            && free_names(*golden, *revised, *lib).len() < VAR_CAPACITY && (free_names(*golden, *revised, *lib).len()
            < 5 || check_bound(*golden, *revised, *lib) < NODE_CAPACITY) ==> res is Ok,
        res matches Ok(rep) ==> report_ok(*golden, *revised, *lib, rep),
{
    let mut bdd = Bdd::new();
    let res = equivalence_in(golden, revised, lib, &mut bdd);
    proof {
        assert forall|x: Seq<char>|
            (undefined(*golden, *lib, x) || undefined(*revised, *lib, x)) implies !#[trigger] both_defined(
            *golden,
            *revised,
            *lib,
            x,
        ) by {
            let a = |n: Seq<char>| true;
            assert(net_value(*golden, *lib, x, a) is None || net_value(*revised, *lib, x, a) is None);
        }
        let n = free_names(*golden, *revised, *lib).len();
        if n <= 4 {
            bdd.lemma_vars_below_mono(n, 4);
            bdd.lemma_few_vars_not_full();
        }
    }
    res
}

/// Check golden vs revised for combinational equivalence, building every
/// function in `bdd`, a package that holds no function yet.
///
/// The check fails with "BDD node table is full" exactly when the table has
/// filled, and succeeds whenever the designs are checkable (a non-empty
/// Liberty, every cell known, every shared endpoint defined in both), the
/// variable order has room for their free nets and the table does not fill.
pub fn equivalence_in(golden: &Netlist, revised: &Netlist, lib: &Lib, bdd: &mut Bdd) -> (res: Result<LecReport, String>)
    requires
        old(bdd).wf(),
        old(bdd).vars_below(0),
    ensures
        final(bdd).wf(),
        final(bdd).vars_below(free_names(*golden, *revised, *lib).len()),
        lib.cells@.len() == 0 ==> (res matches Err(m) && m@ == no_cells_message()),
        lib.cells@.len() > 0 && !cells_known(*golden, *lib) ==> (res matches Err(m) && reports_unknown_cell(
            *golden,
            *lib,
            m@,
        )),
        lib.cells@.len() > 0 && cells_known(*golden, *lib) && !cells_known(*revised, *lib) ==> (res matches Err(m)
            && reports_unknown_cell(*revised, *lib, m@)),
        res matches Err(m) ==> lib.cells@.len() == 0 || !cells_known(*golden, *lib) || !cells_known(*revised, *lib)
            || (m@ == vars_full_message() && free_names(*golden, *revised, *lib).len() >= VAR_CAPACITY)
            || (m@ == bdd_full_message() && final(bdd).full() && check_bound(*golden, *revised, *lib) >= NODE_CAPACITY)
            || (gate_error(m@) && exists|x: Seq<char>|
            #[trigger] shared_ep(*golden, *revised, *lib, x) && (undefined(*golden, *lib, x) || undefined(
                *revised,
                *lib,
                x,
            ))),
        lib.cells@.len() > 0 && cells_known(*golden, *lib) && cells_known(*revised, *lib) && (forall|x: Seq<char>|
            #[trigger] shared_ep(*golden, *revised, *lib, x) ==> both_defined(*golden, *revised, *lib, x))
            && free_names(*golden, *revised, *lib).len() < VAR_CAPACITY && !final(bdd).full() ==> res is Ok,
        res is Ok ==> !final(bdd).full(),
        res matches Ok(rep) ==> report_ok(*golden, *revised, *lib, rep),
{
    proof {
        lemma_free_names_finite(*golden, *revised, *lib);
        bdd.lemma_vars_below_mono(0, free_names(*golden, *revised, *lib).len());
    }
    if lib.cells.len() == 0 {
        let m = String::from_str("no cells in the Liberty");
        proof {
            reveal_strlit("no cells in the Liberty");
        }
        return Err(m);
    }
    match first_unknown_cell(golden, lib) {
        Some(i) => {
            return Err(message("no cell `", &golden.insts[i].cell, "` in Liberty"));
        },
        None => {},
    }
    match first_unknown_cell(revised, lib) {
        Some(i) => {
            return Err(message("no cell `", &revised.insts[i].cell, "` in Liberty"));
        },
        None => {},
    }
    let ghost pool = free_names(*golden, *revised, *lib);
    proof {
        lemma_free_names_finite(*golden, *revised, *lib);
    }
    let g = Design::new(golden, lib);
    let r = Design::new(revised, lib);
    proof {
        assert forall|n: nat| #[trigger] bdd.vars_below(n) by {
            bdd.lemma_vars_below_mono(0, n);
        }
    }
    let mut vars = Vars::new();
    // seed the variable order with the shared primary inputs (sorted, stable)
    let mut pis: Vec<String> = Vec::new();
    copy_strings(&mut pis, &golden.inputs);
    copy_strings(&mut pis, &revised.inputs);
    let ghost copied = strings(pis@);
    proof {
        assert forall|x: Seq<char>| #[trigger] copied.contains(x) implies pool.contains(x) by {
            let j = choose|j: int| 0 <= j < copied.len() && copied[j] == x;
            let gi = strings(golden.inputs@);
            if j < gi.len() {
                lemma_input_named(*golden, j);
                assert(x == golden.inputs@[j]@);
                assert(gi[j] == x);
                assert(is_input(*golden, x));
                assert(free_nets(*golden, *lib).contains(x));
            } else {
                let ri = strings(revised.inputs@);
                lemma_input_named(*revised, j - gi.len());
                assert(x == revised.inputs@[j - gi.len()]@);
                assert(ri[j - gi.len()] == x);
                assert(is_input(*revised, x));
                assert(free_nets(*revised, *lib).contains(x));
            }
        }
    }
    sort_strings(&mut pis);
    proof {
        broadcast use vstd::seq_lib::group_to_multiset_ensures;
        assert forall|x: Seq<char>| #[trigger] strings(pis@).contains(x) implies copied.contains(x) by {
            assert(strings(pis@).to_multiset().count(x) > 0);
        }
    }
    let pis = dedup_sorted(&pis);
    let mut k: usize = 0;
    while k < pis.len()
        invariant
            k <= pis@.len(),
            vars.wf(),
            bdd.wf(),
            forall|n: nat| #[trigger] bdd.vars_below(n),
            forall|x: Seq<char>| #[trigger] strings(pis@).contains(x) ==> pool.contains(x),
            drawn_from(vars.names(), Seq::empty(), pool),
            pool == free_names(*golden, *revised, *lib),
            pool.finite(),
            lib.cells@.len() > 0,
            cells_known(*golden, *lib),
            cells_known(*revised, *lib),
        decreases pis@.len() - k,
    {
        proof {
            assert(strings(pis@)[k as int] == pis@[k as int]@);
            assert(strings(pis@).contains(pis@[k as int]@));
        }
        let ghost before = vars.names();
        match vars.get(&pis[k]) {
            Some(_) => {
                proof {
                    assert forall|x: Seq<char>| #[trigger] vars.names().contains(x) implies pool.contains(x) by {
                        if !before.contains(x) {
                            let j = choose|j: int| 0 <= j < vars.names().len() && vars.names()[j] == x;
                            if j < before.len() {
                                assert(before[j] == x);
                            }
                        }
                    }
                }
            },
            None => {
                proof {
                    lemma_drawn_len(vars.names(), pool);
                }
                return Err(vars_full_error());
            },
        }
        k += 1;
    }
    assert(bdd.vars_below(vars.names().len()));
    let g_eps = g.endpoints();
    let r_eps = r.endpoints();
    let only_in_golden = select(&g_eps, &r_eps, false);
    let only_in_revised = select(&r_eps, &g_eps, false);
    let shared = select(&g_eps, &r_eps, true);
    let ghost sh = strings(shared@);
    assert forall|x: Seq<char>| #[trigger] sh.contains(x) <==> shared_ep(*golden, *revised, *lib, x) by {}
    proof {
        assert(sh.to_set() =~= shared_set(*golden, *revised, *lib));
        lemma_sorted_lt_no_dup(sh);
        sh.unique_seq_to_set();
        old(bdd).lemma_no_vars_two_nodes();
    }
    let mut mismatches: Vec<Mismatch> = Vec::new();
    let ghost mut origin: Seq<int> = Seq::empty();
    let mut k: usize = 0;
    while k < shared.len()
        invariant
            g.wf(),
            r.wf(),
            *g.nl == *golden,
            *r.nl == *revised,
            g.lib == lib,
            r.lib == lib,
            bdd.wf(),
            vars.wf(),
            bdd.vars_below(vars.names().len()),
            drawn_from(vars.names(), Seq::empty(), pool),
            pool == free_names(*golden, *revised, *lib),
            pool.finite(),
            lib.cells@.len() > 0,
            cells_known(*golden, *lib),
            cells_known(*revised, *lib),
            sh == strings(shared@),
            sh.len() == shared_set(*golden, *revised, *lib).len(),
            forall|n: nat| #[trigger] bdd.vars_below(n) ==> bdd.size() <= 2 + k * endpoint_cost(
                *golden,
                *revised,
                *lib,
                n,
            ),
            forall|x: Seq<char>| #[trigger] sh.contains(x) <==> shared_ep(*golden, *revised, *lib, x),
            sorted_lt(sh),
            k <= sh.len(),
            sorted_lt(mismatch_endpoints(mismatches@)),
            origin.len() == mismatches@.len(),
            forall|j: int|
                0 <= j < mismatches@.len() ==> 0 <= #[trigger] origin[j] < k && sh[origin[j]] == mismatch_endpoints(mismatches@)[j],
            !bdd.full() ==> forall|j: int| 0 <= j < k ==> both_defined(*golden, *revised, *lib, #[trigger] sh[j]),
            !bdd.full() ==> forall|j: int|
                0 <= j < k ==> (differs(*golden, *revised, *lib, #[trigger] sh[j]) <==> mismatch_endpoints(
                    mismatches@,
                ).contains(sh[j])),
            !bdd.full() ==> forall|j: int|
                0 <= j < mismatches@.len() ==> mismatch_ok(*golden, *revised, *lib, #[trigger] mismatches@[j]),
        decreases sh.len() - k,
    {
        let ghost b0 = bdd;
        let ghost me0 = mismatch_endpoints(mismatches@);
        let ghost ms0 = mismatches@;
        proof {
            assert(sh.contains(sh[k as int]));
            assert(shared_ep(*golden, *revised, *lib, sh[k as int]));
            lemma_endpoint_named(*golden, *lib, sh[k as int]);
            lemma_endpoint_named(*revised, *lib, sh[k as int]);
        }
        let ghost bk = *bdd;
        let found = match compare_endpoint(&shared[k], &g, &r, bdd, &mut vars) {
            Ok(m) => m,
            Err(m) => {
                proof {
                    let x = sh[k as int];
                    if m@ == bdd_full_message() && bdd.full() && (forall|n: nat| #[trigger] bdd.vars_below(n)
                        ==> bdd.size() <= bk.size() + endpoint_cost(*golden, *revised, *lib, n)) {
                        lemma_drawn_len(vars.names(), pool);
                        bdd.lemma_vars_below_mono(vars.names().len(), pool.len());
                        let fl = pool.len();
                        assert(bk.vars_below(fl));
                        let ec = endpoint_cost(*golden, *revised, *lib, fl) as int;
                        let kk = k as int;
                        let ee = sh.len() as int;
                        assert(kk * ec + ec <= ee * ec) by (nonlinear_arith)
                            requires
                                kk + 1 <= ee,
                                0 <= ec,
                        ;
                    }
                    lemma_drawn_len(vars.names(), pool);
                    bdd.lemma_vars_below_mono(vars.names().len(), pool.len());
                    if m@ == bdd_full_message() && bdd.full() && vars.names().len() <= 4 {
                        bdd.lemma_vars_below_mono(vars.names().len(), 4);
                        bdd.lemma_few_vars_not_full();
                    }
                    if undefined(*golden, *lib, x) || undefined(*revised, *lib, x) {
                        let a = |n: Seq<char>| true;
                        assert(net_value(*golden, *lib, x, a) is None || net_value(*revised, *lib, x, a) is None);
                        assert(!both_defined(*golden, *revised, *lib, x));
                    }
                }
                return Err(m);
            },
        };
        proof {
            assert forall|n: nat| #[trigger] bdd.vars_below(n) implies bdd.size() <= 2 + (k + 1) * endpoint_cost(
                *golden,
                *revised,
                *lib,
                n,
            ) by {
                assert(bk.vars_below(n));
                let ec = endpoint_cost(*golden, *revised, *lib, n) as int;
                let kk = k as int;
                assert(kk * ec + ec == (kk + 1) * ec) by (nonlinear_arith);
            }
        }
        match found {
            Some(m) => {
                mismatches.push(m);
                proof {
                    origin = origin.push(k as int);
                    let me = mismatch_endpoints(mismatches@);
                    assert(me =~= me0.push(sh[k as int]));
                    assert forall|i: int, j: int| 0 <= i < j < me.len() implies str_lt(#[trigger] me[i], #[trigger] me[j]) by {
                        if j == me.len() - 1 {
                            let i0 = origin[i];
                            assert(sh[i0] == me0[i]);
                            assert(str_lt(sh[i0], sh[k as int]));
                        } else {
                            assert(me[i] == me0[i] && me[j] == me0[j]);
                        }
                    }
                    if !bdd.full() {
                        assert forall|j: int| 0 <= j < k + 1 implies (differs(*golden, *revised, *lib, #[trigger] sh[j])
                            <==> me.contains(sh[j])) by {
                            lemma_push_contains(me0, sh[k as int], sh[j]);
                            if j < k {
                                assert(str_lt(sh[j], sh[k as int]));
                                lemma_lt_irrefl(sh[j]);
                            }
                        }
                        assert forall|j: int| 0 <= j < mismatches@.len() implies mismatch_ok(
                            *golden,
                            *revised,
                            *lib,
                            #[trigger] mismatches@[j],
                        ) by {
                            if j < ms0.len() {
                                assert(mismatches@[j] == ms0[j]);
                            }
                        }
                    }
                }
            },
            None => {
                proof {
                    if !bdd.full() {
                        assert forall|j: int| 0 <= j < k + 1 implies (differs(*golden, *revised, *lib, #[trigger] sh[j])
                            <==> me0.contains(sh[j])) by {
                            if j == k && me0.contains(sh[j]) {
                                let i = choose|i: int| 0 <= i < me0.len() && me0[i] == sh[j];
                                let i0 = origin[i];
                                assert(sh[i0] == me0[i]);
                                assert(str_lt(sh[i0], sh[k as int]));
                                lemma_lt_irrefl(sh[i0]);
                            }
                        }
                    }
                }
            },
        }
        proof {
            assert forall|j: int| 0 <= j < mismatches@.len() implies 0 <= #[trigger] origin[j] < k + 1
                && sh[origin[j]] == mismatch_endpoints(mismatches@)[j] by {
                if j < ms0.len() {
                    assert(mismatches@[j] == ms0[j]);
                    assert(mismatch_endpoints(mismatches@)[j] == me0[j]);
                }
            }
        }
        k += 1;
    }
    proof {
        lemma_drawn_len(vars.names(), pool);
        bdd.lemma_vars_below_mono(vars.names().len(), pool.len());
    }
    if bdd.node_count() >= NODE_CAPACITY {
        proof {
            assert(bdd.vars_below(pool.len()));
            lemma_drawn_len(vars.names(), pool);
            if vars.names().len() <= 4 {
                bdd.lemma_vars_below_mono(vars.names().len(), 4);
                bdd.lemma_few_vars_not_full();
            }
        }
        return Err(bdd_full_error());
    }
    let equivalent = mismatches.len() == 0 && only_in_golden.len() == 0 && only_in_revised.len() == 0;
    let compared = shared.len();
    let rep = LecReport { equivalent, compared, mismatches, only_in_golden, only_in_revised };
    proof {
        let me = mismatch_endpoints(rep.mismatches@);
        assert forall|x: Seq<char>| #[trigger] sh.contains(x) <==> shared_ep(*golden, *revised, *lib, x) by {}
        assert(sh.to_set() =~= shared_set(*golden, *revised, *lib));
        lemma_sorted_lt_no_dup(sh);
        sh.unique_seq_to_set();
        assert forall|x: Seq<char>| #[trigger] shared_ep(*golden, *revised, *lib, x) implies both_defined(
            *golden,
            *revised,
            *lib,
            x,
        ) by {
            assert(sh.contains(x));
            let j = choose|j: int| 0 <= j < sh.len() && sh[j] == x;
            assert(both_defined(*golden, *revised, *lib, sh[j]));
        }
        assert forall|x: Seq<char>| #[trigger] me.contains(x) <==> shared_ep(*golden, *revised, *lib, x) && differs(
            *golden,
            *revised,
            *lib,
            x,
        ) by {
            if me.contains(x) {
                let j = choose|j: int| 0 <= j < me.len() && me[j] == x;
                let i0 = origin[j];
                assert(sh[i0] == me[j]);
                assert(sh.contains(x));
                assert(differs(*golden, *revised, *lib, sh[i0]) <==> me.contains(sh[i0]));
            }
            if shared_ep(*golden, *revised, *lib, x) {
                assert(sh.contains(x));
                let j = choose|j: int| 0 <= j < sh.len() && sh[j] == x;
                assert(differs(*golden, *revised, *lib, sh[j]) <==> me.contains(sh[j]));
            }
        }
    }
    Ok(rep)
}

} // verus!
