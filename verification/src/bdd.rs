//! A small reduced, ordered binary decision diagram (ROBDD) package: the
//! decision procedure behind the equivalence check.
//!
//! No complement edges; canonicity comes from the reduction rule (`mk` collapses
//! a node whose branches match and shares structurally equal nodes through a
//! unique table). Because a ROBDD over a fixed variable order is canonical, two
//! boolean functions are equal exactly when they are the same node index
//! (`Bdd::lemma_canonical`).
//!
//! `ite` (if-then-else) is the one primitive; `and`/`or`/`xor`/`not` are thin
//! wrappers, all memoized. `sat_one` extracts a satisfying assignment (a
//! counter-example) when two functions differ.
//!
//! Handles are `u32`, so a diagram holds at most `NODE_CAPACITY` nodes. Once the
//! table is full, operations still return valid handles but their meaning is no
//! longer promised; callers test `node_count()` against the capacity. A diagram
//! over at most four variables never gets there (`Bdd::lemma_few_vars_not_full`),
//! `var` and `mk` add at most one node, and the trivial `ite` cases add none.

use std::collections::HashMap;
use vstd::prelude::*;
use vstd::arithmetic::power2::{lemma_pow2_pos, lemma_pow2_strictly_increases, lemma_pow2_unfold, pow2};
use vstd::relations::injective_on;
use vstd::set_lib::{lemma_int_range, lemma_len_subset, lemma_len_union, lemma_map_size, set_int_range};

verus! {

broadcast use vstd::std_specs::hash::group_hash_axioms;

const FALSE: u32 = 0;

const TRUE: u32 = 1;

/// The variable recorded on the two terminal nodes. The terminals sit below
/// every decision variable in the order, this one included.
pub const TERM_VAR: u32 = 0xFFFF_FFFF;

/// The most nodes one diagram holds (handles are `u32`).
pub const NODE_CAPACITY: usize = 0xFFFF_FFFF;

#[derive(Clone, Copy)]
struct Node {
    var: u32,
    lo: u32,
    hi: u32,
}

/// A shared ROBDD package: every function built in it lives over one variable
/// order (a smaller variable index sits nearer the top of every diagram).
pub struct Bdd {
    nodes: Vec<Node>,
    unique: HashMap<u128, u32>,
    ite_memo: HashMap<u128, u32>,
}

/// An assignment that sets variable `v` to `b` and agrees with `env` elsewhere.
pub open spec fn assign(env: spec_fn(u32) -> bool, v: u32, b: bool) -> spec_fn(u32) -> bool {
    |x: u32| if x == v { b } else { env(x) }
}

/// `env` agrees with every `(variable, value)` pair of `cube`.
pub open spec fn satisfies_cube(env: spec_fn(u32) -> bool, cube: Seq<(u32, bool)>) -> bool {
    forall|k: int| 0 <= k < cube.len() ==> env(#[trigger] cube[k].0) == cube[k].1
}

/// The variables of `cube` strictly increase (each is tested once, in order).
pub open spec fn cube_ordered(cube: Seq<(u32, bool)>) -> bool {
    forall|i: int, j: int| 0 <= i < j < cube.len() ==> #[trigger] cube[i].0 < #[trigger] cube[j].0
}

/// The depth of node `i` in the variable order: its variable for an inner
/// node, below every variable for a terminal.
spec fn level(nodes: Seq<Node>, i: int) -> int {
    if i < 2 {
        TERM_VAR + 1
    } else {
        nodes[i].var as int
    }
}

spec fn min3(a: int, b: int, c: int) -> int {
    if a <= b && a <= c {
        a
    } else if b <= c {
        b
    } else {
        c
    }
}

spec fn key3(a: u32, b: u32, c: u32) -> u128 {
    (a as int * 0x1_0000_0000_0000_0000 + b as int * 0x1_0000_0000 + c as int) as u128
}

spec fn node_key(n: Node) -> u128 {
    key3(n.var, n.lo, n.hi)
}

proof fn lemma_key3_injective(a: u32, b: u32, c: u32, a2: u32, b2: u32, c2: u32)
    requires
        key3(a, b, c) == key3(a2, b2, c2),
    ensures
        a == a2 && b == b2 && c == c2,
{
}

fn encode(a: u32, b: u32, c: u32) -> (k: u128)
    ensures
        k == key3(a, b, c),
{
    (a as u128) * 0x1_0000_0000_0000_0000u128 + (b as u128) * 0x1_0000_0000u128 + (c as u128)
}

/// The boolean value of node `f` under `env`.
spec fn eval_nodes(nodes: Seq<Node>, f: int, env: spec_fn(u32) -> bool) -> bool
    decreases f,
{
    if f <= 0 {
        false
    } else if f == 1 {
        true
    } else if f >= nodes.len() {
        false
    } else {
        let n = nodes[f];
        let next = if env(n.var) {
            n.hi
        } else {
            n.lo
        };
        if next < f {
            eval_nodes(nodes, next as int, env)
        } else {
            false
        }
    }
}

/// The path `sat_one` walks from `f`: take the high branch unless it is FALSE.
spec fn sat_path_nodes(nodes: Seq<Node>, f: int) -> Seq<(u32, bool)>
    decreases f,
{
    if f <= 1 || f >= nodes.len() {
        Seq::empty()
    } else {
        let n = nodes[f];
        if n.hi != FALSE {
            if n.hi < f {
                seq![(n.var, true)] + sat_path_nodes(nodes, n.hi as int)
            } else {
                Seq::empty()
            }
        } else {
            if n.lo < f {
                seq![(n.var, false)] + sat_path_nodes(nodes, n.lo as int)
            } else {
                Seq::empty()
            }
        }
    }
}

/// Node `i` is ordered and reduced: both children come earlier, test deeper
/// variables, and differ.
spec fn node_ok(nodes: Seq<Node>, i: int) -> bool {
    let n = nodes[i];
    &&& n.lo < i
    &&& n.hi < i
    &&& n.lo != n.hi
    &&& n.var < level(nodes, n.lo as int)
    &&& n.var < level(nodes, n.hi as int)
}

spec fn nodes_wf(nodes: Seq<Node>) -> bool {
    &&& 2 <= nodes.len() <= NODE_CAPACITY
    &&& nodes[0].var == TERM_VAR && nodes[0].lo == FALSE && nodes[0].hi == FALSE
    &&& nodes[1].var == TERM_VAR && nodes[1].lo == TRUE && nodes[1].hi == TRUE
    &&& forall|i: int| 2 <= i < nodes.len() ==> #[trigger] node_ok(nodes, i)
}

spec fn nodes_distinct(nodes: Seq<Node>) -> bool {
    forall|i: int, j: int|
        2 <= i < nodes.len() && 2 <= j < nodes.len() && #[trigger] nodes[i] == #[trigger] nodes[j]
            ==> i == j
}

/// The unique table maps the key of every inner node to its index, and nothing else.
spec fn unique_ok(nodes: Seq<Node>, unique: Map<u128, u32>) -> bool {
    &&& forall|k: u128|
        #[trigger] unique.contains_key(k) ==> 2 <= unique[k] < nodes.len() && node_key(
            nodes[unique[k] as int],
        ) == k
    &&& forall|i: int|
        2 <= i < nodes.len() ==> unique.contains_key(#[trigger] node_key(nodes[i]))
            && unique[node_key(nodes[i])] == i
}

/// `r` is `ite(f, g, h)`, and tests no variable above the top variables of `f`, `g`, `h`.
spec fn ite_ok(nodes: Seq<Node>, f: u32, g: u32, h: u32, r: u32) -> bool {
    &&& f < nodes.len()
    &&& g < nodes.len()
    &&& h < nodes.len()
    &&& r < nodes.len()
    &&& level(nodes, r as int) >= min3(level(nodes, f as int), level(nodes, g as int), level(nodes, h as int))
    &&& forall|env: spec_fn(u32) -> bool|
        #[trigger] eval_nodes(nodes, r as int, env) == if eval_nodes(nodes, f as int, env) {
            eval_nodes(nodes, g as int, env)
        } else {
            eval_nodes(nodes, h as int, env)
        }
}

spec fn memo_ok(nodes: Seq<Node>, memo: Map<u128, u32>) -> bool {
    forall|f: u32, g: u32, h: u32|
        #[trigger] memo.contains_key(key3(f, g, h)) ==> ite_ok(nodes, f, g, h, memo[key3(f, g, h)])
}

spec fn nodes_vars_below(nodes: Seq<Node>, n: nat) -> bool {
    forall|i: int| 2 <= i < nodes.len() ==> #[trigger] nodes[i].var < n
}

spec fn keeps(small: Seq<Node>, big: Seq<Node>) -> bool {
    &&& small.len() <= big.len()
    &&& forall|i: int| 0 <= i < small.len() ==> big[i] == small[i]
}

proof fn lemma_eval_prefix(small: Seq<Node>, big: Seq<Node>, f: int, env: spec_fn(u32) -> bool)
    requires
        keeps(small, big),
        0 <= f < small.len(),
    ensures
        eval_nodes(big, f, env) == eval_nodes(small, f, env),
    decreases f,
{
    if f >= 2 {
        let n = small[f];
        assert(big[f] == n);
        if n.lo < f {
            lemma_eval_prefix(small, big, n.lo as int, env);
        }
        if n.hi < f {
            lemma_eval_prefix(small, big, n.hi as int, env);
        }
    }
}

proof fn lemma_ite_ok_keeps(small: Seq<Node>, big: Seq<Node>, f: u32, g: u32, h: u32, r: u32)
    requires
        keeps(small, big),
        ite_ok(small, f, g, h, r),
    ensures
        ite_ok(big, f, g, h, r),
{
    assert(big[r as int] == small[r as int]);
    assert(big[f as int] == small[f as int]);
    assert(big[g as int] == small[g as int]);
    assert(big[h as int] == small[h as int]);
    assert forall|env: spec_fn(u32) -> bool|
        #[trigger] eval_nodes(big, r as int, env) == if eval_nodes(big, f as int, env) {
            eval_nodes(big, g as int, env)
        } else {
            eval_nodes(big, h as int, env)
        } by {
        lemma_eval_prefix(small, big, r as int, env);
        lemma_eval_prefix(small, big, f as int, env);
        lemma_eval_prefix(small, big, g as int, env);
        lemma_eval_prefix(small, big, h as int, env);
        assert(eval_nodes(small, r as int, env) == if eval_nodes(small, f as int, env) {
            eval_nodes(small, g as int, env)
        } else {
            eval_nodes(small, h as int, env)
        });
    }
}

proof fn lemma_memo_keeps(small: Seq<Node>, big: Seq<Node>, memo: Map<u128, u32>)
    requires
        keeps(small, big),
        memo_ok(small, memo),
    ensures
        memo_ok(big, memo),
{
    assert forall|f: u32, g: u32, h: u32| #[trigger]
        memo.contains_key(key3(f, g, h)) implies ite_ok(big, f, g, h, memo[key3(f, g, h)]) by {
        lemma_ite_ok_keeps(small, big, f, g, h, memo[key3(f, g, h)]);
    }
}

proof fn lemma_unique_distinct(nodes: Seq<Node>, unique: Map<u128, u32>)
    requires
        unique_ok(nodes, unique),
    ensures
        nodes_distinct(nodes),
{
    assert forall|i: int, j: int|
        2 <= i < nodes.len() && 2 <= j < nodes.len() && #[trigger] nodes[i] == #[trigger] nodes[j]
            implies i == j by {
        assert(unique[node_key(nodes[i])] == i);
        assert(unique[node_key(nodes[j])] == j);
    }
}

/// Setting a variable above a node's top variable does not change its value.
proof fn lemma_eval_assign(nodes: Seq<Node>, k: int, v: u32, b: bool, env: spec_fn(u32) -> bool)
    requires
        nodes_wf(nodes),
        0 <= k < nodes.len(),
        v < level(nodes, k),
    ensures
        eval_nodes(nodes, k, assign(env, v, b)) == eval_nodes(nodes, k, env),
    decreases k,
{
    if k >= 2 {
        assert(node_ok(nodes, k));
        let n = nodes[k];
        lemma_eval_assign(nodes, n.lo as int, v, b, env);
        lemma_eval_assign(nodes, n.hi as int, v, b, env);
    }
}

/// Canonicity: two nodes with the same function are the same node.
proof fn lemma_canon_nodes(nodes: Seq<Node>, i: int, j: int)
    requires
        nodes_wf(nodes),
        nodes_distinct(nodes),
        0 <= i < nodes.len(),
        0 <= j < nodes.len(),
        forall|env: spec_fn(u32) -> bool| #[trigger]
            eval_nodes(nodes, i, env) == eval_nodes(nodes, j, env),
    ensures
        i == j,
    decreases i + j,
{
    let vi = level(nodes, i);
    let vj = level(nodes, j);
    if i >= 2 {
        assert(node_ok(nodes, i));
    }
    if j >= 2 {
        assert(node_ok(nodes, j));
    }
    if i < 2 && j < 2 {
        if i != j {
            let env = |x: u32| false;
            assert(eval_nodes(nodes, i, env) == eval_nodes(nodes, j, env));
        }
    } else if vi == vj {
        let ni = nodes[i];
        let nj = nodes[j];
        assert forall|env: spec_fn(u32) -> bool| #[trigger]
            eval_nodes(nodes, ni.hi as int, env) == eval_nodes(nodes, nj.hi as int, env) by {
            let e1 = assign(env, ni.var, true);
            lemma_eval_assign(nodes, ni.hi as int, ni.var, true, env);
            lemma_eval_assign(nodes, nj.hi as int, ni.var, true, env);
            assert(eval_nodes(nodes, i, e1) == eval_nodes(nodes, j, e1));
        }
        assert forall|env: spec_fn(u32) -> bool| #[trigger]
            eval_nodes(nodes, ni.lo as int, env) == eval_nodes(nodes, nj.lo as int, env) by {
            let e0 = assign(env, ni.var, false);
            lemma_eval_assign(nodes, ni.lo as int, ni.var, false, env);
            lemma_eval_assign(nodes, nj.lo as int, ni.var, false, env);
            assert(eval_nodes(nodes, i, e0) == eval_nodes(nodes, j, e0));
        }
        lemma_canon_nodes(nodes, ni.hi as int, nj.hi as int);
        lemma_canon_nodes(nodes, ni.lo as int, nj.lo as int);
        assert(nodes[i] == nodes[j]);
    } else if vi < vj {
        let ni = nodes[i];
        assert forall|env: spec_fn(u32) -> bool| #[trigger]
            eval_nodes(nodes, ni.hi as int, env) == eval_nodes(nodes, j, env) by {
            let e1 = assign(env, ni.var, true);
            lemma_eval_assign(nodes, ni.hi as int, ni.var, true, env);
            lemma_eval_assign(nodes, j, ni.var, true, env);
            assert(eval_nodes(nodes, i, e1) == eval_nodes(nodes, j, e1));
        }
        assert forall|env: spec_fn(u32) -> bool| #[trigger]
            eval_nodes(nodes, ni.lo as int, env) == eval_nodes(nodes, j, env) by {
            let e0 = assign(env, ni.var, false);
            lemma_eval_assign(nodes, ni.lo as int, ni.var, false, env);
            lemma_eval_assign(nodes, j, ni.var, false, env);
            assert(eval_nodes(nodes, i, e0) == eval_nodes(nodes, j, e0));
        }
        lemma_canon_nodes(nodes, ni.hi as int, j);
        lemma_canon_nodes(nodes, ni.lo as int, j);
    } else {
        let nj = nodes[j];
        assert forall|env: spec_fn(u32) -> bool| #[trigger]
            eval_nodes(nodes, i, env) == eval_nodes(nodes, nj.hi as int, env) by {
            let e1 = assign(env, nj.var, true);
            lemma_eval_assign(nodes, nj.hi as int, nj.var, true, env);
            lemma_eval_assign(nodes, i, nj.var, true, env);
            assert(eval_nodes(nodes, i, e1) == eval_nodes(nodes, j, e1));
        }
        assert forall|env: spec_fn(u32) -> bool| #[trigger]
            eval_nodes(nodes, i, env) == eval_nodes(nodes, nj.lo as int, env) by {
            let e0 = assign(env, nj.var, false);
            lemma_eval_assign(nodes, nj.lo as int, nj.var, false, env);
            lemma_eval_assign(nodes, i, nj.var, false, env);
            assert(eval_nodes(nodes, i, e0) == eval_nodes(nodes, j, e0));
        }
        lemma_canon_nodes(nodes, i, nj.hi as int);
        lemma_canon_nodes(nodes, i, nj.lo as int);
    }
}

/// Every assignment that agrees with the `sat_one` path from `f` makes `f` true.
proof fn lemma_sat_path(nodes: Seq<Node>, f: int, env: spec_fn(u32) -> bool)
    requires
        nodes_wf(nodes),
        1 <= f < nodes.len(),
        satisfies_cube(env, sat_path_nodes(nodes, f)),
    ensures
        eval_nodes(nodes, f, env),
    decreases f,
{
    if f >= 2 {
        assert(node_ok(nodes, f));
        let n = nodes[f];
        let p = sat_path_nodes(nodes, f);
        assert(p[0].0 == n.var);
        if n.hi != FALSE {
            let rest = sat_path_nodes(nodes, n.hi as int);
            assert(env(n.var));
            assert forall|k: int| 0 <= k < rest.len() implies env(#[trigger] rest[k].0)
                == rest[k].1 by {
                assert(rest[k] == p[k + 1]);
            }
            lemma_sat_path(nodes, n.hi as int, env);
        } else {
            let rest = sat_path_nodes(nodes, n.lo as int);
            assert(!env(n.var));
            assert forall|k: int| 0 <= k < rest.len() implies env(#[trigger] rest[k].0)
                == rest[k].1 by {
                assert(rest[k] == p[k + 1]);
            }
            lemma_sat_path(nodes, n.lo as int, env);
        }
    }
}

/// The variables on a `sat_one` path start at the node's top variable and increase.
proof fn lemma_sat_path_ordered(nodes: Seq<Node>, f: int)
    requires
        nodes_wf(nodes),
        1 <= f < nodes.len(),
    ensures
        cube_ordered(sat_path_nodes(nodes, f)),
        forall|k: int|
            0 <= k < sat_path_nodes(nodes, f).len() ==> nodes[f].var <= #[trigger] sat_path_nodes(
                nodes,
                f,
            )[k].0,
    decreases f,
{
    if f >= 2 {
        assert(node_ok(nodes, f));
        let n = nodes[f];
        let p = sat_path_nodes(nodes, f);
        let c = if n.hi != FALSE {
            n.hi as int
        } else {
            n.lo as int
        };
        lemma_sat_path_ordered(nodes, c);
        let rest = sat_path_nodes(nodes, c);
        assert(p =~= seq![(n.var, n.hi != FALSE)] + rest);
        assert forall|i: int, j: int| 0 <= i < j < p.len() implies #[trigger] p[i].0 < #[trigger] p[
            j
        ].0 by {
            assert(p[j] == rest[j - 1]);
            if i > 0 {
                assert(p[i] == rest[i - 1]);
            }
        }
        assert forall|k: int| 0 <= k < p.len() implies n.var <= #[trigger] p[k].0 by {
            if k > 0 {
                assert(p[k] == rest[k - 1]);
            }
        }
    }
}

/// Each variable on a `sat_one` path is tested by an inner node on that path,
/// and the path is empty only at a terminal.
proof fn lemma_sat_path_tests(nodes: Seq<Node>, f: int)
    requires
        nodes_wf(nodes),
        1 <= f < nodes.len(),
    ensures
        sat_path_nodes(nodes, f).len() == 0 <==> f == 1,
        forall|k: int|
            0 <= k < sat_path_nodes(nodes, f).len() ==> exists|h: int|
                2 <= h < nodes.len() && #[trigger] nodes[h].var == #[trigger] sat_path_nodes(nodes, f)[k].0,
    decreases f,
{
    if f >= 2 {
        assert(node_ok(nodes, f));
        let n0 = nodes[f];
        let p = sat_path_nodes(nodes, f);
        let c = if n0.hi != FALSE {
            n0.hi as int
        } else {
            n0.lo as int
        };
        lemma_sat_path_tests(nodes, c);
        let rest = sat_path_nodes(nodes, c);
        assert(p =~= seq![(n0.var, n0.hi != FALSE)] + rest);
        assert forall|k: int| 0 <= k < p.len() implies exists|h: int|
            2 <= h < nodes.len() && #[trigger] nodes[h].var == #[trigger] p[k].0 by {
            if k > 0 {
                assert(p[k] == rest[k - 1]);
            } else {
                assert(nodes[f].var == p[0].0);
            }
        }
    }
}

/// The variables on a `sat_one` path are variables of inner nodes.
proof fn lemma_sat_path_vars(nodes: Seq<Node>, f: int, n: nat)
    requires
        nodes_wf(nodes),
        nodes_vars_below(nodes, n),
        1 <= f < nodes.len(),
    ensures
        forall|k: int|
            0 <= k < sat_path_nodes(nodes, f).len() ==> #[trigger] sat_path_nodes(nodes, f)[k].0 < n,
    decreases f,
{
    if f >= 2 {
        assert(node_ok(nodes, f));
        let n0 = nodes[f];
        let p = sat_path_nodes(nodes, f);
        let c = if n0.hi != FALSE {
            n0.hi as int
        } else {
            n0.lo as int
        };
        lemma_sat_path_vars(nodes, c, n);
        let rest = sat_path_nodes(nodes, c);
        assert(p =~= seq![(n0.var, n0.hi != FALSE)] + rest);
        assert forall|k: int| 0 <= k < p.len() implies #[trigger] p[k].0 < n by {
            if k > 0 {
                assert(p[k] == rest[k - 1]);
            }
        }
    }
}

/// The most nodes a well-formed diagram whose inner nodes test only `j`
/// variables can hold: each level adds at most one node per pair of nodes below it.
pub open spec fn level_bound(j: nat) -> nat
    decreases j,
{
    if j == 0 {
        2
    } else {
        level_bound((j - 1) as nat) + level_bound((j - 1) as nat) * level_bound((j - 1) as nat)
    }
}

/// The most nodes `ite` adds on `f`, `g`, `h` when every variable is below
/// `n`: one per split, and each split goes one variable deeper.
spec fn ite_room(nodes: Seq<Node>, n: nat, f: u32, g: u32, h: u32) -> int {
    let v = min3(level(nodes, f as int), level(nodes, g as int), level(nodes, h as int));
    if v >= n {
        0
    } else {
        pow2((n - v) as nat) - 1
    }
}

/// One `ite` adds fewer than `2^n` nodes when every variable is below `n`.
proof fn lemma_room_le(nodes: Seq<Node>, n: nat, f: u32, g: u32, h: u32)
    ensures
        ite_room(nodes, n, f, g, h) < pow2(n),
{
    let v = min3(level(nodes, f as int), level(nodes, g as int), level(nodes, h as int));
    lemma_pow2_pos(n);
    if v < n && v > 0 {
        lemma_pow2_strictly_increases((n - v) as nat, n);
    }
}

/// A smaller room for arguments whose top variable sits deeper.
proof fn lemma_room_deeper(nodes: Seq<Node>, n: nat, f: u32, g: u32, h: u32, v: int)
    requires
        0 <= v < n,
        min3(level(nodes, f as int), level(nodes, g as int), level(nodes, h as int)) > v,
    ensures
        0 <= ite_room(nodes, n, f, g, h) <= pow2((n - v - 1) as nat) - 1,
{
    let w = min3(level(nodes, f as int), level(nodes, g as int), level(nodes, h as int));
    lemma_pow2_pos((n - v - 1) as nat);
    if w < n {
        lemma_pow2_pos((n - w) as nat);
        if n - w < n - v - 1 {
            lemma_pow2_strictly_increases((n - w) as nat, (n - v - 1) as nat);
        }
    }
}

/// Counting the nodes one split of `ite` adds: its two recursive calls, each a
/// variable deeper, and the one node `mk` may add.
proof fn lemma_ite_growth(
    nodes0: Seq<Node>,
    nodes1: Seq<Node>,
    nodes2: Seq<Node>,
    nodes3: Seq<Node>,
    n: nat,
    f: u32,
    g: u32,
    h: u32,
    v: u32,
    flo: u32,
    glo: u32,
    hlo: u32,
    fhi: u32,
    ghi: u32,
    hhi: u32,
)
    requires
        keeps(nodes0, nodes1),
        keeps(nodes1, nodes2),
        keeps(nodes2, nodes3),
        nodes_vars_below(nodes3, n),
        2 <= f < nodes0.len(),
        g < nodes0.len(),
        h < nodes0.len(),
        v == min3(level(nodes0, f as int), level(nodes0, g as int), level(nodes0, h as int)),
        flo < nodes0.len() && glo < nodes0.len() && hlo < nodes0.len(),
        fhi < nodes0.len() && ghi < nodes0.len() && hhi < nodes0.len(),
        level(nodes0, flo as int) > v && level(nodes0, glo as int) > v && level(nodes0, hlo as int) > v,
        level(nodes0, fhi as int) > v && level(nodes0, ghi as int) > v && level(nodes0, hhi as int) > v,
        nodes_vars_below(nodes1, n) ==> nodes1.len() <= nodes0.len() + ite_room(nodes0, n, flo, glo, hlo),
        nodes_vars_below(nodes2, n) ==> nodes2.len() <= nodes1.len() + ite_room(nodes1, n, fhi, ghi, hhi),
        nodes3.len() <= nodes2.len() + 1,
    ensures
        nodes3.len() <= nodes0.len() + ite_room(nodes0, n, f, g, h),
{
    assert forall|i: int| 2 <= i < nodes2.len() implies #[trigger] nodes2[i].var < n by {
        assert(nodes3[i] == nodes2[i]);
    }
    assert forall|i: int| 2 <= i < nodes1.len() implies #[trigger] nodes1[i].var < n by {
        assert(nodes3[i] == nodes1[i]);
        assert(nodes2[i] == nodes1[i]);
    }
    assert(nodes3[f as int] == nodes0[f as int]);
    assert(nodes1[f as int] == nodes0[f as int]);
    assert(nodes2[f as int] == nodes0[f as int]);
    assert(nodes0[f as int].var < n);
    let vv = v as int;
    assert(vv < n);
    assert(nodes1[fhi as int] == nodes0[fhi as int]);
    assert(nodes1[ghi as int] == nodes0[ghi as int]);
    assert(nodes1[hhi as int] == nodes0[hhi as int]);
    assert(level(nodes1, fhi as int) == level(nodes0, fhi as int));
    assert(level(nodes1, ghi as int) == level(nodes0, ghi as int));
    assert(level(nodes1, hhi as int) == level(nodes0, hhi as int));
    lemma_room_deeper(nodes0, n, flo, glo, hlo, vv);
    lemma_room_deeper(nodes1, n, fhi, ghi, hhi, vv);
    lemma_pow2_unfold((n - vv) as nat);
    assert(((n - vv) - 1) as nat == (n - vv - 1) as nat);
}

/// The nodes that test variable `k` or a deeper one (the terminals included).
spec fn level_set(nodes: Seq<Node>, k: int) -> Set<int> {
    Set::new(|i: int| 0 <= i < nodes.len() && nodes[i].var >= k)
}

spec fn pairs(a: Set<int>) -> Set<(int, int)> {
    Set::new(|p: (int, int)| a.contains(p.0) && a.contains(p.1))
}

proof fn lemma_pairs_len(a: Set<int>)
    requires
        a.finite(),
    ensures
        pairs(a).finite(),
        pairs(a).len() <= a.len() * a.len(),
    decreases a.len(),
{
    if a.len() == 0 {
        a.lemma_len0_is_empty();
        assert(pairs(a) =~= Set::<(int, int)>::empty());
    } else {
        let x = a.choose();
        let a0 = a.remove(x);
        lemma_pairs_len(a0);
        let fr = |b: int| (x, b);
        let fc = |c: int| (c, x);
        let row = a.map(fr);
        let col = a0.map(fc);
        assert(injective_on(fr, a));
        assert(injective_on(fc, a0));
        lemma_map_size(a, row, fr);
        lemma_map_size(a0, col, fc);
        assert forall|p: (int, int)| pairs(a).contains(p) implies #[trigger] pairs(a0).union(row).union(
            col,
        ).contains(p) by {
            if p.0 == x {
                assert(fr(p.1) == p);
                assert(row.contains(p));
            } else if p.1 == x {
                assert(fc(p.0) == p);
                assert(col.contains(p));
            } else {
                assert(pairs(a0).contains(p));
            }
        }
        assert(pairs(a0).union(row).union(col) =~= pairs(a));
        lemma_len_union(pairs(a0), row);
        lemma_len_union(pairs(a0).union(row), col);
        let m = a.len() as int;
        assert((m - 1) * (m - 1) + m + (m - 1) == m * m) by (nonlinear_arith);
    }
}

/// Counting level by level: the nodes at variable `k` or deeper number at most
/// `level_bound(n - k)` when no inner node tests a variable at or past `n`.
proof fn lemma_level_count(nodes: Seq<Node>, n: nat, k: int)
    requires
        nodes_wf(nodes),
        nodes_distinct(nodes),
        nodes_vars_below(nodes, n),
        n < TERM_VAR,
        0 <= k <= n,
    ensures
        level_set(nodes, k).finite(),
        level_set(nodes, k).len() <= level_bound((n - k) as nat),
    decreases n - k,
{
    lemma_int_range(0, nodes.len() as int);
    assert(level_set(nodes, k).subset_of(set_int_range(0, nodes.len() as int)));
    lemma_len_subset(level_set(nodes, k), set_int_range(0, nodes.len() as int));
    if k == n {
        lemma_int_range(0, 2);
        assert forall|i: int| #[trigger] level_set(nodes, k).contains(i) implies set_int_range(
            0,
            2,
        ).contains(i) by {
            if i >= 2 {
                assert(nodes[i].var < n);
            }
        }
        lemma_len_subset(level_set(nodes, k), set_int_range(0, 2));
    } else {
        lemma_level_count(nodes, n, k + 1);
        let up = level_set(nodes, k + 1);
        let lev = Set::new(|i: int| 0 <= i < nodes.len() && nodes[i].var == k);
        assert(level_set(nodes, k) =~= up.union(lev));
        assert(lev.subset_of(set_int_range(0, nodes.len() as int)));
        lemma_len_subset(lev, set_int_range(0, nodes.len() as int));
        let f = |i: int| (nodes[i].lo as int, nodes[i].hi as int);
        assert forall|i: int| #[trigger] lev.contains(i) implies i >= 2 by {
            if i < 2 {
                assert(nodes[i].var == TERM_VAR);
            }
        }
        assert(injective_on(f, lev)) by {
            assert forall|i: int, j: int| lev.contains(i) && lev.contains(j) && #[trigger] f(i) == #[trigger] f(
                j,
            ) implies i == j by {
                assert(nodes[i] == nodes[j]);
            }
        }
        lemma_map_size(lev, lev.map(f), f);
        assert forall|p: (int, int)| #[trigger] lev.map(f).contains(p) implies pairs(up).contains(p) by {
            let i = choose|i: int| lev.contains(i) && f(i) == p;
            assert(node_ok(nodes, i));
        }
        lemma_pairs_len(up);
        lemma_len_subset(lev.map(f), pairs(up));
        lemma_len_union(up, lev);
        let u = up.len() as int;
        let b = level_bound((n - k - 1) as nat) as int;
        assert(u * u <= b * b) by (nonlinear_arith)
            requires
                0 <= u <= b,
        ;
        assert(level_bound((n - k) as nat) == b + b * b);
    }
}

impl Bdd {
    /// Some inner node tests variable `v`.
    pub closed spec fn tests(self, v: u32) -> bool {
        exists|h: int| 2 <= h < self.nodes@.len() && #[trigger] self.nodes@[h].var == v
    }

    /// The number of nodes, the two terminals included.
    pub closed spec fn size(self) -> nat {
        self.nodes@.len()
    }

    /// `f` is a handle of this diagram.
    pub open spec fn valid(self, f: u32) -> bool {
        f < self.size()
    }

    /// The node table has reached `NODE_CAPACITY`.
    pub open spec fn full(self) -> bool {
        self.size() >= NODE_CAPACITY
    }

    /// The boolean value of the function `f` when each variable `v` is `env(v)`.
    pub closed spec fn eval(self, f: u32, env: spec_fn(u32) -> bool) -> bool {
        eval_nodes(self.nodes@, f as int, env)
    }

    /// The assignment `sat_one` reports for `f`: the path it walks.
    pub closed spec fn sat_path(self, f: u32) -> Seq<(u32, bool)> {
        sat_path_nodes(self.nodes@, f as int)
    }

    /// Every variable tested by a node of the diagram is below `n`.
    pub closed spec fn vars_below(self, n: nat) -> bool {
        nodes_vars_below(self.nodes@, n)
    }

    /// Growth is transitive.
    pub proof fn lemma_extends_trans(a: Bdd, b: Bdd, c: Bdd)
        requires
            b.extends(a),
            c.extends(b),
        ensures
            c.extends(a),
    {
        assert forall|f: u32, env: spec_fn(u32) -> bool| a.valid(f) implies #[trigger] c.eval(f, env)
            == a.eval(f, env) by {
            assert(b.eval(f, env) == a.eval(f, env));
        }
    }

    /// A package whose inner nodes test no variable holds only the two terminals.
    pub proof fn lemma_no_vars_two_nodes(self)
        requires
            self.wf(),
            self.vars_below(0),
        ensures
            self.size() == 2,
    {
        if self.nodes@.len() > 2 {
            assert(self.nodes@[2].var < 0);
        }
    }

    /// A bound on the variables stays a bound when raised.
    pub proof fn lemma_vars_below_mono(self, n: nat, m: nat)
        requires
            self.vars_below(n),
            n <= m,
        ensures
            self.vars_below(m),
    {
    }

    /// A well-formed diagram whose inner nodes test only variables below `n`
    /// holds at most `level_bound(n)` nodes.
    pub proof fn lemma_size_bound(self, n: nat)
        requires
            self.wf(),
            self.vars_below(n),
            n < TERM_VAR,
        ensures
            self.size() <= level_bound(n),
    {
        lemma_unique_distinct(self.nodes@, self.unique@);
        lemma_level_count(self.nodes@, n, 0);
        lemma_int_range(0, self.nodes@.len() as int);
        assert(level_set(self.nodes@, 0) =~= set_int_range(0, self.nodes@.len() as int));
    }

    /// A diagram over at most four variables never fills its node table: it
    /// holds at most `level_bound(4)` = 3263442 nodes.
    pub proof fn lemma_few_vars_not_full(self)
        requires
            self.wf(),
            self.vars_below(4),
        ensures
            !self.full(),
    {
        self.lemma_size_bound(4);
        assert(level_bound(0) == 2);
        assert(level_bound(1) == level_bound(0) + level_bound(0) * level_bound(0));
        assert(level_bound(2) == level_bound(1) + level_bound(1) * level_bound(1));
        assert(level_bound(3) == level_bound(2) + level_bound(2) * level_bound(2));
        assert(level_bound(4) == level_bound(3) + level_bound(3) * level_bound(3));
        assert(level_bound(1) == 6);
        assert(level_bound(2) == 42);
        assert(level_bound(3) == 1806);
        assert(1806 * 1806 == 3261636) by (nonlinear_arith);
        assert(level_bound(4) == 3263442);
    }

    /// The package's invariant: nodes ordered, reduced and shared; the memo holds
    /// only correct `ite` results.
    pub closed spec fn wf(self) -> bool {
        &&& nodes_wf(self.nodes@)
        &&& unique_ok(self.nodes@, self.unique@)
        &&& memo_ok(self.nodes@, self.ite_memo@)
    }

    /// `self` grew from `old`: every handle of `old` is still a handle with the
    /// same function, and a variable's node stays that variable's node.
    pub open spec fn extends(self, old: Bdd) -> bool {
        &&& old.size() <= self.size()
        &&& forall|f: u32, env: spec_fn(u32) -> bool|
            #![trigger self.eval(f, env)]
            #![trigger old.eval(f, env)]
            old.valid(f) ==> self.eval(f, env) == old.eval(f, env)
        &&& forall|f: u32, index: u32| #[trigger] old.holds_var(f, index) ==> self.holds_var(f, index)
    }

    /// `old` tests no variable that `self` does not: every bound on the
    /// variables of `self` bounds those of `old`.
    pub open spec fn covers(self, old: Bdd) -> bool {
        forall|n: nat| #[trigger] self.vars_below(n) ==> old.vars_below(n)
    }

    closed spec fn keeps_from(self, old: Bdd) -> bool {
        keeps(old.nodes@, self.nodes@)
    }

    proof fn lemma_keeps_extends(self, old: Bdd)
        requires
            self.keeps_from(old),
        ensures
            self.extends(old),
            self.covers(old),
    {
        assert forall|n: nat| #[trigger] self.vars_below(n) implies old.vars_below(n) by {
            assert forall|i: int| 2 <= i < old.nodes@.len() implies #[trigger] old.nodes@[i].var < n by {
                assert(self.nodes@[i] == old.nodes@[i]);
            }
        }
        assert forall|f: u32, env: spec_fn(u32) -> bool| old.valid(f) implies #[trigger] self.eval(
            f,
            env,
        ) == old.eval(f, env) by {
            lemma_eval_prefix(old.nodes@, self.nodes@, f as int, env);
        }
    }

    /// Canonicity: in a well-formed diagram, two handles with the same boolean
    /// function are the same handle.
    pub proof fn lemma_canonical(self, f: u32, g: u32)
        requires
            self.wf(),
            self.valid(f),
            self.valid(g),
            forall|env: spec_fn(u32) -> bool| #[trigger] self.eval(f, env) == self.eval(g, env),
        ensures
            f == g,
    {
        lemma_unique_distinct(self.nodes@, self.unique@);
        assert forall|env: spec_fn(u32) -> bool| #[trigger]
            eval_nodes(self.nodes@, f as int, env) == eval_nodes(self.nodes@, g as int, env) by {
            assert(self.eval(f, env) == self.eval(g, env));
        }
        lemma_canon_nodes(self.nodes@, f as int, g as int);
    }

    /// The miter law: a handle whose function is the exclusive or of `f` and `g`
    /// is the constant-false handle exactly when `f` and `g` are the same handle.
    pub proof fn lemma_miter(self, f: u32, g: u32, m: u32)
        requires
            self.wf(),
            self.valid(f),
            self.valid(g),
            self.valid(m),
            forall|env: spec_fn(u32) -> bool| #[trigger]
                self.eval(m, env) == (self.eval(f, env) != self.eval(g, env)),
        ensures
            m == 0 <==> f == g,
    {
        if f == g {
            assert forall|env: spec_fn(u32) -> bool| #[trigger]
                self.eval(m, env) == self.eval(0, env) by {
                assert(self.eval(m, env) == (self.eval(f, env) != self.eval(g, env)));
            }
            self.lemma_canonical(m, 0);
        }
        if m == 0 {
            assert forall|env: spec_fn(u32) -> bool| #[trigger]
                self.eval(f, env) == self.eval(g, env) by {
                assert(self.eval(m, env) == (self.eval(f, env) != self.eval(g, env)));
            }
            self.lemma_canonical(f, g);
        }
    }

    /// An empty package: just the two terminals.
    pub fn new() -> (b: Bdd)
        ensures
            b.wf(),
            b.size() == 2,
            forall|n: nat| #[trigger] b.vars_below(n),
    {
        let mut nodes: Vec<Node> = Vec::new();
        nodes.push(Node { var: TERM_VAR, lo: FALSE, hi: FALSE });
        nodes.push(Node { var: TERM_VAR, lo: TRUE, hi: TRUE });
        let b = Bdd { nodes, unique: HashMap::new(), ite_memo: HashMap::new() };
        assert(b.unique@ =~= Map::empty());
        assert(b.ite_memo@ =~= Map::empty());
        b
    }

    /// The constant-true function.
    pub fn one(&self) -> (r: u32)
        ensures
            r == 1,
            self.wf() ==> self.valid(r),
            forall|env: spec_fn(u32) -> bool| #[trigger] self.eval(r, env),
    {
        TRUE
    }

    /// The constant-false function.
    pub fn zero(&self) -> (r: u32)
        ensures
            r == 0,
            self.wf() ==> self.valid(r),
            forall|env: spec_fn(u32) -> bool| !#[trigger] self.eval(r, env),
    {
        FALSE
    }

    fn var_of(&self, f: u32) -> (v: u32)
        requires
            self.valid(f),
        ensures
            v == self.nodes@[f as int].var,
    {
        self.nodes[f as usize].var
    }

    /// The canonical node for `(var, lo, hi)`: applies the reduction rule and
    /// shares through the unique table.
    fn mk(&mut self, var: u32, lo: u32, hi: u32) -> (r: u32)
        requires
            old(self).wf(),
            old(self).valid(lo),
            old(self).valid(hi),
            !old(self).full() ==> var < level(old(self).nodes@, lo as int) && var < level(old(self).nodes@, hi as int),
        ensures
            final(self).wf(),
            final(self).keeps_from(*old(self)),
            final(self).valid(r),
            final(self).size() <= old(self).size() + 1,
            lo == hi ==> r == lo && *final(self) == *old(self),
            lo != hi && old(self).unique@.contains_key(key3(var, lo, hi)) ==> r == old(self).unique@[key3(var, lo, hi)]
                && *final(self) == *old(self),
            forall|n: nat| #[trigger] old(self).vars_below(n) && var < n ==> final(self).vars_below(n),
            !old(self).full() && lo != hi ==> final(self).nodes@[r as int].var == var && final(self).nodes@[r as int].lo == lo && final(self).nodes@[r as int].hi == hi,
    {
        if lo == hi {
            return lo;
        }
        let k = encode(var, lo, hi);
        match self.unique.get(&k) {
            Some(i) => {
                let i = *i;
                proof {
                    lemma_key3_injective(
                        var,
                        lo,
                        hi,
                        self.nodes@[i as int].var,
                        self.nodes@[i as int].lo,
                        self.nodes@[i as int].hi,
                    );
                }
                return i;
            },
            None => {},
        }
        if self.nodes.len() >= NODE_CAPACITY {
            return lo;
        }
        let i = self.nodes.len() as u32;
        let n = Node { var, lo, hi };
        let ghost old_nodes = self.nodes@;
        self.nodes.push(n);
        self.unique.insert(k, i);
        proof {
            let nodes = self.nodes@;
            assert(keeps(old_nodes, nodes));
            assert(node_ok(nodes, i as int));
            assert forall|j: int| 2 <= j < nodes.len() implies #[trigger] node_ok(nodes, j) by {
                if j < i {
                    assert(node_ok(old_nodes, j));
                }
            }
            assert forall|kk: u128| #[trigger]
                self.unique@.contains_key(kk) implies 2 <= self.unique@[kk] < nodes.len()
                && node_key(nodes[self.unique@[kk] as int]) == kk by {
                if kk != k {
                    assert(old(self).unique@.contains_key(kk));
                }
            }
            assert forall|j: int| 2 <= j < nodes.len() implies self.unique@.contains_key(
                #[trigger] node_key(nodes[j]),
            ) && self.unique@[node_key(nodes[j])] == j by {
                if j < i {
                    assert(node_key(old_nodes[j]) == node_key(nodes[j]));
                    assert(old(self).unique@.contains_key(node_key(old_nodes[j])));
                    if node_key(nodes[j]) == k {
                        assert(false);
                    }
                }
            }
            lemma_memo_keeps(old_nodes, nodes, self.ite_memo@);
        }
        i
    }

    /// Handle `f` is the inner node that tests variable `index` and leads to
    /// FALSE when it is false and to TRUE when it is true.
    pub closed spec fn holds_var(self, f: u32, index: u32) -> bool {
        &&& 2 <= f < self.size()
        &&& self.nodes@[f as int].var == index
        &&& self.nodes@[f as int].lo == FALSE
        &&& self.nodes@[f as int].hi == TRUE
    }

    /// A decision variable as a function (`index` is its place in the order;
    /// the terminals sit below every variable, `TERM_VAR` included). Asking
    /// again for the same variable gives the same handle and adds no node.
    pub fn var(&mut self, index: u32) -> (r: u32)
        requires
            old(self).wf(),
        ensures
            final(self).wf(),
            final(self).extends(*old(self)),
            final(self).covers(*old(self)),
            final(self).valid(r),
            final(self).size() <= old(self).size() + 1,
            forall|j: u32| #[trigger] old(self).holds_var(j, index) ==> r == j && final(self).size() == old(self).size(),
            forall|n: nat|
                #![trigger old(self).vars_below(n)]
                #![trigger final(self).vars_below(n)]
                old(self).vars_below(n) && index < n ==> final(self).vars_below(n),
            final(self).vars_below(4) ==> !final(self).full(),
            !old(self).full() ==> r >= 2 && final(self).holds_var(r, index),
            !old(self).full() ==> forall|env: spec_fn(u32) -> bool| #[trigger]
                final(self).eval(r, env) == env(index),
    {
        let r = self.mk(index, FALSE, TRUE);
        proof {
            self.lemma_keeps_extends(*old(self));
            if self.vars_below(4) {
                self.lemma_few_vars_not_full();
            }
            assert forall|j: u32| #[trigger] old(self).holds_var(j, index) implies r == j && self.size()
                == old(self).size() by {
                assert(node_key(old(self).nodes@[j as int]) == key3(index, FALSE, TRUE));
            }
            if !old(self).full() {
                let nodes = self.nodes@;
                assert(r >= 2) by {
                    if r < 2 {
                        assert(nodes[r as int].lo == nodes[r as int].hi);
                    }
                }
                assert(node_ok(nodes, r as int));
                assert forall|env: spec_fn(u32) -> bool| #[trigger] self.eval(r, env) == env(index) by {
                    assert(eval_nodes(nodes, 0, env) == false);
                    assert(eval_nodes(nodes, 1, env) == true);
                }
            }
        }
        r
    }

    fn is_term(f: u32) -> (b: bool)
        ensures
            b == (f == FALSE || f == TRUE),
    {
        f == FALSE || f == TRUE
    }

    /// Cofactors `(f|v=0, f|v=1)` for the split variable `v`. A node whose top
    /// variable is not `v` does not depend on `v` here.
    fn cof(&self, f: u32, v: u32) -> (r: (u32, u32))
        requires
            self.valid(f),
        ensures
            self.nodes@[f as int].var == v ==> r == (self.nodes@[f as int].lo, self.nodes@[f as int].hi),
            self.nodes@[f as int].var != v ==> r == (f, f),
    {
        let n = self.nodes[f as usize];
        if n.var == v {
            (n.lo, n.hi)
        } else {
            (f, f)
        }
    }

    /// `ite(f, g, h)` = (f ? g : h). The single core operation.
    pub fn ite(&mut self, f: u32, g: u32, h: u32) -> (r: u32)
        requires
            old(self).wf(),
            old(self).valid(f),
            old(self).valid(g),
            old(self).valid(h),
        ensures
            final(self).wf(),
            final(self).extends(*old(self)),
            final(self).covers(*old(self)),
            final(self).valid(r),
            forall|n: nat|
                #![trigger old(self).vars_below(n)]
                #![trigger final(self).vars_below(n)]
                old(self).vars_below(n) ==> final(self).vars_below(n),
            final(self).vars_below(4) ==> !final(self).full(),
            forall|n: nat| #[trigger] final(self).vars_below(n) ==> final(self).size() < old(self).size() + pow2(n),
            f == 1 ==> r == g && *final(self) == *old(self),
            f == 0 ==> r == h && *final(self) == *old(self),
            g == h ==> r == g && *final(self) == *old(self),
            g == 1 && h == 0 ==> r == f && *final(self) == *old(self),
            !final(self).full() ==> forall|env: spec_fn(u32) -> bool| #[trigger]
                final(self).eval(r, env) == if old(self).eval(f, env) {
                    old(self).eval(g, env)
                } else {
                    old(self).eval(h, env)
                },
    {
        let r = self.ite_rec(f, g, h);
        proof {
            self.lemma_keeps_extends(*old(self));
            assert forall|n: nat| #[trigger] self.vars_below(n) implies self.size() < old(self).size() + pow2(n) by {
                lemma_room_le(old(self).nodes@, n, f, g, h);
            }
            if self.vars_below(4) {
                self.lemma_few_vars_not_full();
            }
        }
        r
    }

    /// Negation.
    pub fn not(&mut self, f: u32) -> (r: u32)
        requires
            old(self).wf(),
            old(self).valid(f),
        ensures
            final(self).wf(),
            final(self).extends(*old(self)),
            final(self).covers(*old(self)),
            final(self).valid(r),
            forall|n: nat|
                #![trigger old(self).vars_below(n)]
                #![trigger final(self).vars_below(n)]
                old(self).vars_below(n) ==> final(self).vars_below(n),
            final(self).vars_below(4) ==> !final(self).full(),
            forall|n: nat| #[trigger] final(self).vars_below(n) ==> final(self).size() <= old(self).size() + 1 * pow2(n),
            f == 0 ==> r == 1 && *final(self) == *old(self),
            f == 1 ==> r == 0 && *final(self) == *old(self),
            !final(self).full() ==> forall|env: spec_fn(u32) -> bool| #[trigger]
                final(self).eval(r, env) == !old(self).eval(f, env),
    {
        self.ite(f, FALSE, TRUE)
    }

    /// Conjunction.
    pub fn and(&mut self, f: u32, g: u32) -> (r: u32)
        requires
            old(self).wf(),
            old(self).valid(f),
            old(self).valid(g),
        ensures
            final(self).wf(),
            final(self).extends(*old(self)),
            final(self).covers(*old(self)),
            final(self).valid(r),
            forall|n: nat|
                #![trigger old(self).vars_below(n)]
                #![trigger final(self).vars_below(n)]
                old(self).vars_below(n) ==> final(self).vars_below(n),
            final(self).vars_below(4) ==> !final(self).full(),
            forall|n: nat| #[trigger] final(self).vars_below(n) ==> final(self).size() <= old(self).size() + 1 * pow2(n),
            f == 0 ==> r == 0 && *final(self) == *old(self),
            f == 1 ==> r == g && *final(self) == *old(self),
            g == 0 ==> r == 0 && *final(self) == *old(self),
            g == 1 ==> r == f && *final(self) == *old(self),
            !final(self).full() ==> forall|env: spec_fn(u32) -> bool| #[trigger]
                final(self).eval(r, env) == (old(self).eval(f, env) && old(self).eval(g, env)),
    {
        self.ite(f, g, FALSE)
    }

    /// Disjunction.
    pub fn or(&mut self, f: u32, g: u32) -> (r: u32)
        requires
            old(self).wf(),
            old(self).valid(f),
            old(self).valid(g),
        ensures
            final(self).wf(),
            final(self).extends(*old(self)),
            final(self).covers(*old(self)),
            final(self).valid(r),
            forall|n: nat|
                #![trigger old(self).vars_below(n)]
                #![trigger final(self).vars_below(n)]
                old(self).vars_below(n) ==> final(self).vars_below(n),
            final(self).vars_below(4) ==> !final(self).full(),
            forall|n: nat| #[trigger] final(self).vars_below(n) ==> final(self).size() <= old(self).size() + 1 * pow2(n),
            f == 0 ==> r == g && *final(self) == *old(self),
            f == 1 ==> r == 1 && *final(self) == *old(self),
            g == 0 ==> r == f && *final(self) == *old(self),
            g == 1 ==> r == 1 && *final(self) == *old(self),
            !final(self).full() ==> forall|env: spec_fn(u32) -> bool| #[trigger]
                final(self).eval(r, env) == (old(self).eval(f, env) || old(self).eval(g, env)),
    {
        self.ite(f, TRUE, g)
    }

    /// Exclusive or.
    pub fn xor(&mut self, f: u32, g: u32) -> (r: u32)
        requires
            old(self).wf(),
            old(self).valid(f),
            old(self).valid(g),
        ensures
            final(self).wf(),
            final(self).extends(*old(self)),
            final(self).covers(*old(self)),
            final(self).valid(r),
            forall|n: nat|
                #![trigger old(self).vars_below(n)]
                #![trigger final(self).vars_below(n)]
                old(self).vars_below(n) ==> final(self).vars_below(n),
            final(self).vars_below(4) ==> !final(self).full(),
            forall|n: nat| #[trigger] final(self).vars_below(n) ==> final(self).size() <= old(self).size() + 2 * pow2(n),
            !final(self).full() ==> forall|env: spec_fn(u32) -> bool| #[trigger]
                final(self).eval(r, env) == (old(self).eval(f, env) != old(self).eval(g, env)),
    {
        let ng = self.not(g);
        self.ite(f, ng, g)
    }

    /// Equivalence (negated exclusive or).
    pub fn xnor(&mut self, f: u32, g: u32) -> (r: u32)
        requires
            old(self).wf(),
            old(self).valid(f),
            old(self).valid(g),
        ensures
            final(self).wf(),
            final(self).extends(*old(self)),
            final(self).covers(*old(self)),
            final(self).valid(r),
            forall|n: nat|
                #![trigger old(self).vars_below(n)]
                #![trigger final(self).vars_below(n)]
                old(self).vars_below(n) ==> final(self).vars_below(n),
            final(self).vars_below(4) ==> !final(self).full(),
            forall|n: nat| #[trigger] final(self).vars_below(n) ==> final(self).size() <= old(self).size() + 3 * pow2(n),
            !final(self).full() ==> forall|env: spec_fn(u32) -> bool| #[trigger]
                final(self).eval(r, env) == (old(self).eval(f, env) == old(self).eval(g, env)),
    {
        let x = self.xor(f, g);
        self.not(x)
    }

    /// One satisfying assignment of `f` (a path to TRUE), as `(var, value)` pairs
    /// for the variables actually tested; unlisted variables are don't-cares.
    /// `None` iff `f` is the constant FALSE.
    pub fn sat_one(&self, f: u32) -> (r: Option<Vec<(u32, bool)>>)
        requires
            self.wf(),
            self.valid(f),
        ensures
            r is None <==> f == 0,
            r is None <==> forall|env: spec_fn(u32) -> bool| !#[trigger] self.eval(f, env),
            r matches Some(cube) ==> {
                &&& cube@ == self.sat_path(f)
                &&& (cube@.len() == 0 <==> f == 1)
                &&& forall|k: int| 0 <= k < cube@.len() ==> self.tests(#[trigger] cube@[k].0)
                &&& cube_ordered(cube@)
                &&& forall|n: nat, k: int|
                    #[trigger] self.vars_below(n) && 0 <= k < cube@.len() ==> #[trigger] cube@[k].0 < n
                &&& forall|env: spec_fn(u32) -> bool|
                    satisfies_cube(env, cube@) ==> #[trigger] self.eval(f, env)
            },
    {
        let ghost nodes = self.nodes@;
        if f == FALSE {
            return None;
        }
        let mut out: Vec<(u32, bool)> = Vec::new();
        let mut cur = f;
        while cur != TRUE
            invariant
                self.wf(),
                nodes == self.nodes@,
                1 <= cur < nodes.len(),
                out@ + sat_path_nodes(nodes, cur as int) == sat_path_nodes(nodes, f as int),
            decreases cur,
        {
            let n = self.nodes[cur as usize];
            proof {
                assert(node_ok(nodes, cur as int));
            }
            let ghost prev = out@;
            if n.hi != FALSE {
                out.push((n.var, true));
                proof {
                    assert(sat_path_nodes(nodes, cur as int) =~= seq![(n.var, true)]
                        + sat_path_nodes(nodes, n.hi as int));
                    assert(out@ + sat_path_nodes(nodes, n.hi as int) =~= prev + sat_path_nodes(
                        nodes,
                        cur as int,
                    ));
                }
                cur = n.hi;
            } else {
                out.push((n.var, false));
                proof {
                    assert(sat_path_nodes(nodes, cur as int) =~= seq![(n.var, false)]
                        + sat_path_nodes(nodes, n.lo as int));
                    assert(out@ + sat_path_nodes(nodes, n.lo as int) =~= prev + sat_path_nodes(
                        nodes,
                        cur as int,
                    ));
                }
                cur = n.lo;
            }
        }
        proof {
            assert(out@ =~= sat_path_nodes(nodes, f as int));
            lemma_sat_path_ordered(nodes, f as int);
            lemma_sat_path_tests(nodes, f as int);
            assert forall|k: int| 0 <= k < out@.len() implies self.tests(#[trigger] out@[k].0) by {
                let h = choose|h: int| 2 <= h < nodes.len() && #[trigger] nodes[h].var == sat_path_nodes(nodes, f as int)[k].0;
                assert(nodes[h].var == out@[k].0);
            }
            assert forall|n: nat, k: int|
                #[trigger] self.vars_below(n) && 0 <= k < out@.len() implies #[trigger] out@[k].0 < n by {
                lemma_sat_path_vars(nodes, f as int, n);
            }
            assert forall|env: spec_fn(u32) -> bool| satisfies_cube(env, out@) implies #[trigger]
                self.eval(f, env) by {
                lemma_sat_path(nodes, f as int, env);
            }
            if forall|env: spec_fn(u32) -> bool| !#[trigger] self.eval(f, env) {
                assert forall|env: spec_fn(u32) -> bool| #[trigger]
                    self.eval(f, env) == self.eval(0, env) by {
                    assert(!self.eval(f, env));
                }
                self.lemma_canonical(f, 0);
            }
        }
        Some(out)
    }

    /// The number of nodes, the two terminals included.
    pub fn node_count(&self) -> (n: usize)
        ensures
            n == self.size(),
    {
        self.nodes.len()
    }

    #[verifier::rlimit(40)]
    fn ite_rec(&mut self, f: u32, g: u32, h: u32) -> (r: u32)
        requires
            old(self).wf(),
            old(self).valid(f),
            old(self).valid(g),
            old(self).valid(h),
        ensures
            final(self).wf(),
            final(self).keeps_from(*old(self)),
            final(self).valid(r),
            forall|n: nat|
                #![trigger old(self).vars_below(n)]
                #![trigger final(self).vars_below(n)]
                old(self).vars_below(n) ==> final(self).vars_below(n),
            !final(self).full() ==> ite_ok(final(self).nodes@, f, g, h, r),
            forall|n: nat| #[trigger] final(self).vars_below(n) ==> final(self).size() <= old(self).size() + ite_room(
                old(self).nodes@,
                n,
                f,
                g,
                h,
            ),
            f == 1 ==> r == g && *final(self) == *old(self),
            f == 0 ==> r == h && *final(self) == *old(self),
            g == h ==> r == g && *final(self) == *old(self),
            g == 1 && h == 0 ==> r == f && *final(self) == *old(self),
        decreases f + g + h,
    {
        let ghost nodes0 = self.nodes@;
        proof {
            assert forall|n: nat| ite_room(nodes0, n, f, g, h) >= 0 by {
                let v = min3(level(nodes0, f as int), level(nodes0, g as int), level(nodes0, h as int));
                if v < n {
                    lemma_pow2_pos((n - v) as nat);
                }
            }
        }
        // terminal / trivial reductions
        if f == TRUE {
            return g;
        }
        if f == FALSE {
            return h;
        }
        if g == h {
            return g;
        }
        if g == TRUE && h == FALSE {
            return f;
        }
        let k = encode(f, g, h);
        match self.ite_memo.get(&k) {
            Some(r) => {
                return *r;
            },
            None => {},
        }
        proof {
            assert(node_ok(nodes0, f as int));
            if g >= 2 {
                assert(node_ok(nodes0, g as int));
            }
            if h >= 2 {
                assert(node_ok(nodes0, h as int));
            }
        }
        // split on the top-most variable among f, g, h
        let v = {
            let mut v = self.var_of(f);
            let vg = self.var_of(g);
            let vh = self.var_of(h);
            if !Self::is_term(g) && vg < v {
                v = vg;
            }
            if !Self::is_term(h) && vh < v {
                v = vh;
            }
            v
        };
        assert(v == min3(level(nodes0, f as int), level(nodes0, g as int), level(nodes0, h as int)));
        let (flo, fhi) = self.cof(f, v);
        let (glo, ghi) = self.cof(g, v);
        let (hlo, hhi) = self.cof(h, v);
        proof {
            lemma_cof_vars(nodes0, f, v, flo, fhi);
            lemma_cof_vars(nodes0, g, v, glo, ghi);
            lemma_cof_vars(nodes0, h, v, hlo, hhi);
        }
        let lo = self.ite_rec(flo, glo, hlo);
        let ghost self1 = *self;
        let hi = self.ite_rec(fhi, ghi, hhi);
        let ghost self2 = *self;
        proof {
            assert(keeps(nodes0, self2.nodes@));
            if !self2.full() {
                assert(!self1.full());
                lemma_ite_ok_keeps(self1.nodes@, self2.nodes@, flo, glo, hlo, lo);
                lemma_result_below(nodes0, self2.nodes@, flo, glo, hlo, lo, v);
                lemma_result_below(nodes0, self2.nodes@, fhi, ghi, hhi, hi, v);
            }
        }
        let r = self.mk(v, lo, hi);
        let ghost self3 = *self;
        if self.nodes.len() < NODE_CAPACITY {
            self.ite_memo.insert(k, r);
        }
        proof {
            let nodes = self.nodes@;
            assert(keeps(nodes0, nodes));
            assert(keeps(self2.nodes@, nodes));
            lemma_memo_keeps(self2.nodes@, nodes, self2.ite_memo@);
            if !self.full() {
                lemma_ite_ok_keeps(self2.nodes@, nodes, flo, glo, hlo, lo);
                lemma_ite_ok_keeps(self2.nodes@, nodes, fhi, ghi, hhi, hi);
                lemma_ite_combine(nodes0, nodes, f, g, h, v, flo, fhi, glo, ghi, hlo, hhi, lo, hi, r);
                lemma_memo_insert(nodes, self3.ite_memo@, f, g, h, r);
            }
            assert forall|n: nat| #[trigger] self.vars_below(n) implies self.size() <= old(self).size() + ite_room(
                nodes0,
                n,
                f,
                g,
                h,
            ) by {
                if nodes_vars_below(self1.nodes@, n) {
                    assert(self1.vars_below(n));
                }
                if nodes_vars_below(self2.nodes@, n) {
                    assert(self2.vars_below(n));
                }
                lemma_ite_growth(nodes0, self1.nodes@, self2.nodes@, nodes, n, f, g, h, v, flo, glo, hlo, fhi, ghi, hhi);
            }
        }
        r
    }
}

impl Default for Bdd {
    fn default() -> (b: Self)
        ensures
            b.wf(),
            b.size() == 2,
    {
        Bdd::new()
    }
}

/// The cofactors of `x` on the top split variable `v` sit strictly below `v`,
/// and the cofactor of a node whose top variable is `v` is a smaller handle.
proof fn lemma_cof_vars(nodes: Seq<Node>, x: u32, v: u32, xl: u32, xh: u32)
    requires
        nodes_wf(nodes),
        x < nodes.len(),
        v <= level(nodes, x as int),
        nodes[x as int].var == v ==> xl == nodes[x as int].lo && xh == nodes[x as int].hi,
        nodes[x as int].var != v ==> xl == x && xh == x,
    ensures
        xl < nodes.len(),
        xh < nodes.len(),
        level(nodes, xl as int) > v,
        level(nodes, xh as int) > v,
        xl <= x,
        xh <= x,
        x >= 2 && nodes[x as int].var == v ==> xl < x && xh < x,
{
    if x >= 2 {
        assert(node_ok(nodes, x as int));
    }
}

/// An `ite` result over cofactors below `v` lies below `v` too.
proof fn lemma_result_below(
    nodes0: Seq<Node>,
    nodes: Seq<Node>,
    a: u32,
    b: u32,
    c: u32,
    r: u32,
    v: u32,
)
    requires
        keeps(nodes0, nodes),
        a < nodes0.len(),
        b < nodes0.len(),
        c < nodes0.len(),
        level(nodes0, a as int) > v,
        level(nodes0, b as int) > v,
        level(nodes0, c as int) > v,
        ite_ok(nodes, a, b, c, r),
    ensures
        level(nodes, r as int) > v,
{
    assert(nodes[a as int] == nodes0[a as int]);
    assert(nodes[b as int] == nodes0[b as int]);
    assert(nodes[c as int] == nodes0[c as int]);
}

/// Shannon expansion: `mk(v, ite(f|0, g|0, h|0), ite(f|1, g|1, h|1))` is `ite(f, g, h)`.
proof fn lemma_ite_combine(
    nodes0: Seq<Node>,
    nodes: Seq<Node>,
    f: u32,
    g: u32,
    h: u32,
    v: u32,
    flo: u32,
    fhi: u32,
    glo: u32,
    ghi: u32,
    hlo: u32,
    hhi: u32,
    lo: u32,
    hi: u32,
    r: u32,
)
    requires
        nodes_wf(nodes0),
        nodes_wf(nodes),
        keeps(nodes0, nodes),
        f < nodes0.len(),
        g < nodes0.len(),
        h < nodes0.len(),
        v == min3(level(nodes0, f as int), level(nodes0, g as int), level(nodes0, h as int)),
        nodes0[f as int].var == v ==> flo == nodes0[f as int].lo && fhi == nodes0[f as int].hi,
        nodes0[f as int].var != v ==> flo == f && fhi == f,
        nodes0[g as int].var == v ==> glo == nodes0[g as int].lo && ghi == nodes0[g as int].hi,
        nodes0[g as int].var != v ==> glo == g && ghi == g,
        nodes0[h as int].var == v ==> hlo == nodes0[h as int].lo && hhi == nodes0[h as int].hi,
        nodes0[h as int].var != v ==> hlo == h && hhi == h,
        ite_ok(nodes, flo, glo, hlo, lo),
        ite_ok(nodes, fhi, ghi, hhi, hi),
        level(nodes, lo as int) > v,
        level(nodes, hi as int) > v,
        r < nodes.len(),
        lo == hi ==> r == lo,
        lo != hi ==> nodes[r as int].var == v && nodes[r as int].lo == lo && nodes[r as int].hi == hi,
    ensures
        ite_ok(nodes, f, g, h, r),
{
    assert(nodes[f as int] == nodes0[f as int]);
    assert(nodes[g as int] == nodes0[g as int]);
    assert(nodes[h as int] == nodes0[h as int]);
    if lo != hi {
        assert(r >= 2) by {
            if r < 2 {
                assert(nodes[r as int].lo == nodes[r as int].hi);
            }
        }
    }
    assert forall|env: spec_fn(u32) -> bool| #[trigger]
        eval_nodes(nodes, r as int, env) == if eval_nodes(nodes, f as int, env) {
            eval_nodes(nodes, g as int, env)
        } else {
            eval_nodes(nodes, h as int, env)
        } by {
        lemma_cof_eval(nodes, f, v, env);
        lemma_cof_eval(nodes, g, v, env);
        lemma_cof_eval(nodes, h, v, env);
        if r >= 2 {
            assert(node_ok(nodes, r as int));
        }
        if env(v) {
            assert(eval_nodes(nodes, f as int, env) == eval_nodes(nodes, fhi as int, env));
            assert(eval_nodes(nodes, g as int, env) == eval_nodes(nodes, ghi as int, env));
            assert(eval_nodes(nodes, h as int, env) == eval_nodes(nodes, hhi as int, env));
            assert(eval_nodes(nodes, r as int, env) == eval_nodes(nodes, hi as int, env));
        } else {
            assert(eval_nodes(nodes, f as int, env) == eval_nodes(nodes, flo as int, env));
            assert(eval_nodes(nodes, g as int, env) == eval_nodes(nodes, glo as int, env));
            assert(eval_nodes(nodes, h as int, env) == eval_nodes(nodes, hlo as int, env));
            assert(eval_nodes(nodes, r as int, env) == eval_nodes(nodes, lo as int, env));
        }
        assert(eval_nodes(nodes, lo as int, env) == if eval_nodes(nodes, flo as int, env) {
            eval_nodes(nodes, glo as int, env)
        } else {
            eval_nodes(nodes, hlo as int, env)
        });
        assert(eval_nodes(nodes, hi as int, env) == if eval_nodes(nodes, fhi as int, env) {
            eval_nodes(nodes, ghi as int, env)
        } else {
            eval_nodes(nodes, hhi as int, env)
        });
    }
}

proof fn lemma_cof_eval(nodes: Seq<Node>, x: u32, v: u32, env: spec_fn(u32) -> bool)
    requires
        nodes_wf(nodes),
        x < nodes.len(),
    ensures
        x >= 2 && nodes[x as int].var == v ==> eval_nodes(nodes, x as int, env) == if env(v) {
            eval_nodes(nodes, nodes[x as int].hi as int, env)
        } else {
            eval_nodes(nodes, nodes[x as int].lo as int, env)
        },
{
    if x >= 2 {
        assert(node_ok(nodes, x as int));
    }
}

/// Recording a correct `ite` result keeps the memo correct.
proof fn lemma_memo_insert(nodes: Seq<Node>, memo: Map<u128, u32>, f: u32, g: u32, h: u32, r: u32)
    requires
        memo_ok(nodes, memo),
        ite_ok(nodes, f, g, h, r),
    ensures
        memo_ok(nodes, memo.insert(key3(f, g, h), r)),
{
    let m = memo.insert(key3(f, g, h), r);
    assert forall|a: u32, b: u32, c: u32| #[trigger] m.contains_key(key3(a, b, c)) implies ite_ok(
        nodes,
        a,
        b,
        c,
        m[key3(a, b, c)],
    ) by {
        if key3(a, b, c) == key3(f, g, h) {
            lemma_key3_injective(a, b, c, f, g, h);
        } else {
            assert(memo.contains_key(key3(a, b, c)));
        }
    }
}

} // verus!
