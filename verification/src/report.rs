//! Rendering an equivalence report as text or as JSON.

use crate::lec::{LecReport, Mismatch};
use vstd::prelude::*;

verus! {

/// The decimal digit `d`.
pub open spec fn digit_char(d: nat) -> char {
    if d == 0 {
        '0'
    } else if d == 1 {
        '1'
    } else if d == 2 {
        '2'
    } else if d == 3 {
        '3'
    } else if d == 4 {
        '4'
    } else if d == 5 {
        '5'
    } else if d == 6 {
        '6'
    } else if d == 7 {
        '7'
    } else if d == 8 {
        '8'
    } else {
        '9'
    }
}

/// The decimal numeral of `n`.
pub open spec fn decimal_spec(n: nat) -> Seq<char>
    decreases n,
{
    if n < 10 {
        seq![digit_char(n)]
    } else {
        decimal_spec(n / 10) + seq![digit_char(n % 10)]
    }
}

fn digit_str(d: usize) -> (s: &'static str)
    requires
        d < 10,
    ensures
        s@ == seq![digit_char(d as nat)],
{
    if d == 0 {
        proof {
            reveal_strlit("0");
        }
        "0"
    } else if d == 1 {
        proof {
            reveal_strlit("1");
        }
        "1"
    } else if d == 2 {
        proof {
            reveal_strlit("2");
        }
        "2"
    } else if d == 3 {
        proof {
            reveal_strlit("3");
        }
        "3"
    } else if d == 4 {
        proof {
            reveal_strlit("4");
        }
        "4"
    } else if d == 5 {
        proof {
            reveal_strlit("5");
        }
        "5"
    } else if d == 6 {
        proof {
            reveal_strlit("6");
        }
        "6"
    } else if d == 7 {
        proof {
            reveal_strlit("7");
        }
        "7"
    } else if d == 8 {
        proof {
            reveal_strlit("8");
        }
        "8"
    } else {
        proof {
            reveal_strlit("9");
        }
        "9"
    }
}

/// The decimal numeral of `n`, as `{}` formats an unsigned integer.
pub fn decimal(n: usize) -> (s: String)
    ensures
        s@ == decimal_spec(n as nat),
    decreases n,
{
    if n < 10 {
        String::from_str(digit_str(n))
    } else {
        let mut s = decimal(n / 10);
        s.append(digit_str(n % 10));
        s
    }
}

/// `true` or `false`, as `{}` formats a `bool`.
pub open spec fn bool_text(b: bool) -> Seq<char> {
    if b {
        "true"@
    } else {
        "false"@
    }
}

fn bool_str(b: bool) -> (s: &'static str)
    ensures
        s@ == bool_text(b),
{
    if b {
        "true"
    } else {
        "false"
    }
}

// ---------------------------------------------------------------------------
// Text

/// `name=1` or `name=0`.
pub open spec fn cex_word(c: (String, bool)) -> Seq<char> {
    c.0@ + "="@ + if c.1 {
        "1"@
    } else {
        "0"@
    }
}

/// The counter-example's words joined by single spaces.
pub open spec fn cex_words(cex: Seq<(String, bool)>) -> Seq<char>
    decreases cex.len(),
{
    if cex.len() == 0 {
        Seq::empty()
    } else if cex.len() == 1 {
        cex_word(cex[0])
    } else {
        cex_words(cex.drop_last()) + " "@ + cex_word(cex.last())
    }
}

/// One text line per mismatch.
pub open spec fn mismatch_lines(ms: Seq<Mismatch>) -> Seq<char>
    decreases ms.len(),
{
    if ms.len() == 0 {
        Seq::empty()
    } else {
        mismatch_lines(ms.drop_last()) + "  differ at `"@ + ms.last().endpoint@ + "`   when "@ + cex_words(
            ms.last().counterexample@,
        ) + "\n"@
    }
}

/// One text line per name, after `head`.
pub open spec fn name_lines(head: Seq<char>, names: Seq<String>) -> Seq<char>
    decreases names.len(),
{
    if names.len() == 0 {
        Seq::empty()
    } else {
        name_lines(head, names.drop_last()) + head + names.last()@ + "\n"@
    }
}

/// The text report: a verdict line, then (when the designs differ) at most 100
/// mismatch lines and the endpoints found in only one design.
pub open spec fn text_spec(r: LecReport) -> Seq<char> {
    if r.equivalent {
        "vyges-lec — EQUIVALENT ✓  ("@ + decimal_spec(r.compared as nat) + " endpoint(s) proven)\n"@
    } else {
        let shown = if r.mismatches@.len() <= 100 {
            r.mismatches@
        } else {
            r.mismatches@.take(100)
        };
        "vyges-lec — NOT EQUIVALENT ✗  ("@ + decimal_spec(r.compared as nat) + " compared, "@
            + decimal_spec(r.mismatches@.len()) + " differ)\n"@ + mismatch_lines(shown) + name_lines(
            "  only in golden:  "@,
            r.only_in_golden@,
        ) + name_lines("  only in revised: "@, r.only_in_revised@)
    }
}

fn append_cex_words(s: &mut String, cex: &Vec<(String, bool)>)
    ensures
        final(s)@ == old(s)@ + cex_words(cex@),
{
    let ghost s0 = s@;
    let mut k: usize = 0;
    while k < cex.len()
        invariant
            k <= cex@.len(),
            s@ == s0 + cex_words(cex@.take(k as int)),
        decreases cex@.len() - k,
    {
        let ghost before = s@;
        if k > 0 {
            s.append(" ");
        }
        s.append(cex[k].0.as_str());
        s.append("=");
        if cex[k].1 {
            s.append("1");
        } else {
            s.append("0");
        }
        proof {
            let t = cex@.take(k + 1);
            assert(t.drop_last() =~= cex@.take(k as int));
            assert(t.last() == cex@[k as int]);
            if k == 0 {
                assert(cex@.take(0) =~= Seq::<(String, bool)>::empty());
                assert(s@ =~= s0 + cex_words(t));
            } else {
                assert(s@ =~= s0 + cex_words(t));
            }
        }
        k += 1;
    }
    assert(cex@.take(cex@.len() as int) =~= cex@);
}

fn append_name_lines(s: &mut String, head: &str, names: &Vec<String>)
    ensures
        final(s)@ == old(s)@ + name_lines(head@, names@),
{
    let ghost s0 = s@;
    let mut k: usize = 0;
    while k < names.len()
        invariant
            k <= names@.len(),
            s@ == s0 + name_lines(head@, names@.take(k as int)),
        decreases names@.len() - k,
    {
        s.append(head);
        s.append(names[k].as_str());
        s.append("\n");
        proof {
            let t = names@.take(k + 1);
            assert(t.drop_last() =~= names@.take(k as int));
            assert(s@ =~= s0 + name_lines(head@, t));
        }
        k += 1;
    }
    assert(names@.take(names@.len() as int) =~= names@);
}

/// The report as text.
pub fn render_text(r: &LecReport) -> (s: String)
    ensures
        s@ == text_spec(*r),
{
    if r.equivalent {
        let mut s = String::from_str("vyges-lec — EQUIVALENT ✓  (");
        s.append(decimal(r.compared).as_str());
        s.append(" endpoint(s) proven)\n");
        return s;
    }
    let mut s = String::from_str("vyges-lec — NOT EQUIVALENT ✗  (");
    s.append(decimal(r.compared).as_str());
    s.append(" compared, ");
    s.append(decimal(r.mismatches.len()).as_str());
    s.append(" differ)\n");
    let ghost head = s@;
    let shown = if r.mismatches.len() <= 100 {
        r.mismatches.len()
    } else {
        100
    };
    let mut k: usize = 0;
    while k < shown
        invariant
            shown <= r.mismatches@.len(),
            k <= shown,
            s@ == head + mismatch_lines(r.mismatches@.take(k as int)),
        decreases shown - k,
    {
        let m = &r.mismatches[k];
        s.append("  differ at `");
        s.append(m.endpoint.as_str());
        s.append("`   when ");
        append_cex_words(&mut s, &m.counterexample);
        s.append("\n");
        proof {
            let t = r.mismatches@.take(k + 1);
            assert(t.drop_last() =~= r.mismatches@.take(k as int));
            assert(t.last() == r.mismatches@[k as int]);
            assert(s@ =~= head + mismatch_lines(t));
        }
        k += 1;
    }
    proof {
        if r.mismatches@.len() <= 100 {
            assert(r.mismatches@.take(shown as int) =~= r.mismatches@);
        }
    }
    append_name_lines(&mut s, "  only in golden:  ", &r.only_in_golden);
    append_name_lines(&mut s, "  only in revised: ", &r.only_in_revised);
    s
}

// ---------------------------------------------------------------------------
// JSON

/// What `{:?}` gives for a string: the string in double quotes, with quotes,
/// backslashes and characters that are not printable escaped.
pub uninterp spec fn debug_text(s: Seq<char>) -> Seq<char>;

/// `format!("{:?}", s)`: std's `Debug` of a string.
#[verifier::external_body]
fn debug_str(s: &String) -> (r: String)
    ensures
        r@ == debug_text(s@),
{
    format!("{:?}", s)
}

/// The `Debug` items of `names` joined by `", "`.
pub open spec fn debug_items(names: Seq<String>) -> Seq<char>
    decreases names.len(),
{
    if names.len() == 0 {
        Seq::empty()
    } else if names.len() == 1 {
        debug_text(names[0]@)
    } else {
        debug_items(names.drop_last()) + ", "@ + debug_text(names.last()@)
    }
}

/// What `{:?}` gives for a list of strings: `[` items `, ` ... `]`.
pub open spec fn debug_list(names: Seq<String>) -> Seq<char> {
    "["@ + debug_items(names) + "]"@
}

/// `"name": value` pairs joined by `", "`.
pub open spec fn json_pairs(cex: Seq<(String, bool)>) -> Seq<char>
    decreases cex.len(),
{
    if cex.len() == 0 {
        Seq::empty()
    } else {
        let p = "\""@ + cex.last().0@ + "\": "@ + bool_text(cex.last().1);
        if cex.len() == 1 {
            p
        } else {
            json_pairs(cex.drop_last()) + ", "@ + p
        }
    }
}

/// One JSON object line per mismatch, comma-separated.
pub open spec fn json_mismatches(ms: Seq<Mismatch>, total: nat) -> Seq<char>
    decreases ms.len(),
{
    if ms.len() == 0 {
        Seq::empty()
    } else {
        let i = ms.len() - 1;
        let comma = if i + 1 < total {
            ","@
        } else {
            ""@
        };
        json_mismatches(ms.drop_last(), total) + "    {\"endpoint\": \""@ + ms.last().endpoint@
            + "\", \"counterexample\": {"@ + json_pairs(ms.last().counterexample@) + "}}"@ + comma
            + "\n"@
    }
}

/// The JSON report.
pub open spec fn json_spec(r: LecReport) -> Seq<char> {
    "{\n"@ + "  \"equivalent\": "@ + bool_text(r.equivalent) + ",\n"@ + "  \"compared\": "@ + decimal_spec(
        r.compared as nat,
    ) + ",\n"@ + "  \"mismatches\": [\n"@ + json_mismatches(r.mismatches@, r.mismatches@.len())
        + "  ],\n"@ + "  \"only_in_golden\": "@ + debug_list(r.only_in_golden@) + ",\n"@
        + "  \"only_in_revised\": "@ + debug_list(r.only_in_revised@) + "\n"@ + "}\n"@
}

fn append_debug_list(s: &mut String, names: &Vec<String>)
    ensures
        final(s)@ == old(s)@ + debug_list(names@),
{
    let ghost s0 = s@;
    s.append("[");
    let mut k: usize = 0;
    while k < names.len()
        invariant
            k <= names@.len(),
            s@ == s0 + "["@ + debug_items(names@.take(k as int)),
        decreases names@.len() - k,
    {
        if k > 0 {
            s.append(", ");
        }
        s.append(debug_str(&names[k]).as_str());
        proof {
            let t = names@.take(k + 1);
            assert(t.drop_last() =~= names@.take(k as int));
            if k == 0 {
                assert(names@.take(0) =~= Seq::<String>::empty());
            }
            assert(s@ =~= s0 + "["@ + debug_items(t));
        }
        k += 1;
    }
    s.append("]");
    assert(names@.take(names@.len() as int) =~= names@);
    assert(s@ =~= s0 + debug_list(names@));
}

fn append_json_pairs(s: &mut String, cex: &Vec<(String, bool)>)
    ensures
        final(s)@ == old(s)@ + json_pairs(cex@),
{
    let ghost s0 = s@;
    let mut k: usize = 0;
    while k < cex.len()
        invariant
            k <= cex@.len(),
            s@ == s0 + json_pairs(cex@.take(k as int)),
        decreases cex@.len() - k,
    {
        if k > 0 {
            s.append(", ");
        }
        s.append("\"");
        s.append(cex[k].0.as_str());
        s.append("\": ");
        s.append(bool_str(cex[k].1));
        proof {
            let t = cex@.take(k + 1);
            assert(t.drop_last() =~= cex@.take(k as int));
            assert(t.last() == cex@[k as int]);
            if k == 0 {
                assert(cex@.take(0) =~= Seq::<(String, bool)>::empty());
            }
            assert(s@ =~= s0 + json_pairs(t));
        }
        k += 1;
    }
    assert(cex@.take(cex@.len() as int) =~= cex@);
}

/// The report as JSON.
pub fn render_json(r: &LecReport) -> (s: String)
    ensures
        s@ == json_spec(*r),
{
    let mut s = String::from_str("{\n");
    s.append("  \"equivalent\": ");
    s.append(bool_str(r.equivalent));
    s.append(",\n");
    s.append("  \"compared\": ");
    s.append(decimal(r.compared).as_str());
    s.append(",\n");
    s.append("  \"mismatches\": [\n");
    let ghost head = s@;
    let total = r.mismatches.len();
    let mut i: usize = 0;
    while i < total
        invariant
            total == r.mismatches@.len(),
            i <= total,
            s@ == head + json_mismatches(r.mismatches@.take(i as int), total as nat),
        decreases total - i,
    {
        let m = &r.mismatches[i];
        let comma = if i + 1 < total {
            ","
        } else {
            ""
        };
        s.append("    {\"endpoint\": \"");
        s.append(m.endpoint.as_str());
        s.append("\", \"counterexample\": {");
        append_json_pairs(&mut s, &m.counterexample);
        s.append("}}");
        s.append(comma);
        s.append("\n");
        proof {
            let t = r.mismatches@.take(i + 1);
            assert(t.drop_last() =~= r.mismatches@.take(i as int));
            assert(t.last() == r.mismatches@[i as int]);
            assert(s@ =~= head + json_mismatches(t, total as nat));
        }
        i += 1;
    }
    assert(r.mismatches@.take(total as int) =~= r.mismatches@);
    s.append("  ],\n");
    s.append("  \"only_in_golden\": ");
    append_debug_list(&mut s, &r.only_in_golden);
    s.append(",\n");
    s.append("  \"only_in_revised\": ");
    append_debug_list(&mut s, &r.only_in_revised);
    s.append("\n");
    s.append("}\n");
    s
}

// ---------------------------------------------------------------------------
// What the renderings say

/// `piece` occurs in `text`.
pub open spec fn has_piece(text: Seq<char>, piece: Seq<char>) -> bool {
    exists|i: int| 0 <= i && i + piece.len() <= text.len() && #[trigger] text.subrange(i, i + piece.len()) == piece
}

proof fn lemma_piece_left(a: Seq<char>, b: Seq<char>, piece: Seq<char>)
    requires
        has_piece(a, piece),
    ensures
        has_piece(a + b, piece),
{
    let i = choose|i: int| 0 <= i && i + piece.len() <= a.len() && #[trigger] a.subrange(i, i + piece.len()) == piece;
    assert((a + b).subrange(i, i + piece.len()) =~= a.subrange(i, i + piece.len()));
}

proof fn lemma_piece_right(a: Seq<char>, b: Seq<char>, piece: Seq<char>)
    requires
        has_piece(b, piece),
    ensures
        has_piece(a + b, piece),
{
    let i = choose|i: int| 0 <= i && i + piece.len() <= b.len() && #[trigger] b.subrange(i, i + piece.len()) == piece;
    assert((a + b).subrange(a.len() + i, a.len() + i + piece.len()) =~= b.subrange(i, i + piece.len()));
}

proof fn lemma_name_lines_piece(head: Seq<char>, names: Seq<String>, k: int)
    requires
        0 <= k < names.len(),
    ensures
        has_piece(name_lines(head, names), head + names[k]@ + "\n"@),
    decreases names.len(),
{
    let rest = name_lines(head, names.drop_last());
    let line = head + names.last()@ + "\n"@;
    if k == names.len() - 1 {
        let i = rest.len() as int;
        assert(names[k] == names.last());
        assert(name_lines(head, names) == rest + line);
        assert((rest + line).subrange(i, i + line.len()) =~= line);
        assert(has_piece(rest + line, line));
    } else {
        lemma_name_lines_piece(head, names.drop_last(), k);
        assert(names.drop_last()[k] == names[k]);
        assert(name_lines(head, names) == rest + line);
        lemma_piece_left(rest, line, head + names[k]@ + "\n"@);
    }
}

/// The text begins with "EQUIVALENT" exactly when `r.equivalent` holds, and
/// with "NOT EQUIVALENT" otherwise.
pub proof fn lemma_text_verdict(r: LecReport)
    ensures
        r.equivalent ==> "vyges-lec — EQUIVALENT ✓  ("@.is_prefix_of(text_spec(r)),
        !r.equivalent ==> "vyges-lec — NOT EQUIVALENT ✗  ("@.is_prefix_of(text_spec(r)),
{
    let t = text_spec(r);
    if r.equivalent {
        let p = "vyges-lec — EQUIVALENT ✓  ("@;
        assert(t.subrange(0, p.len() as int) =~= p);
    } else {
        let p = "vyges-lec — NOT EQUIVALENT ✗  ("@;
        assert(t.subrange(0, p.len() as int) =~= p);
    }
}

/// A report that is not "equivalent" lists every endpoint found in the golden
/// design only on a line "  only in golden:  NAME", and every endpoint found in
/// the revised design only on a line "  only in revised: NAME".
pub proof fn lemma_text_only_in_lines(r: LecReport, k: int)
    requires
        !r.equivalent,
    ensures
        0 <= k < r.only_in_golden@.len() ==> has_piece(
            text_spec(r),
            "  only in golden:  "@ + r.only_in_golden@[k]@ + "\n"@,
        ),
        0 <= k < r.only_in_revised@.len() ==> has_piece(
            text_spec(r),
            "  only in revised: "@ + r.only_in_revised@[k]@ + "\n"@,
        ),
{
    let shown = if r.mismatches@.len() <= 100 {
        r.mismatches@
    } else {
        r.mismatches@.take(100)
    };
    let a = "vyges-lec — NOT EQUIVALENT ✗  ("@ + decimal_spec(r.compared as nat) + " compared, "@
        + decimal_spec(r.mismatches@.len()) + " differ)\n"@ + mismatch_lines(shown);
    let g = name_lines("  only in golden:  "@, r.only_in_golden@);
    let v = name_lines("  only in revised: "@, r.only_in_revised@);
    assert(text_spec(r) == a + g + v);
    if 0 <= k < r.only_in_golden@.len() {
        lemma_name_lines_piece("  only in golden:  "@, r.only_in_golden@, k);
        lemma_piece_right(a, g, "  only in golden:  "@ + r.only_in_golden@[k]@ + "\n"@);
        lemma_piece_left(a + g, v, "  only in golden:  "@ + r.only_in_golden@[k]@ + "\n"@);
    }
    if 0 <= k < r.only_in_revised@.len() {
        lemma_name_lines_piece("  only in revised: "@, r.only_in_revised@, k);
        lemma_piece_right(a + g, v, "  only in revised: "@ + r.only_in_revised@[k]@ + "\n"@);
    }
}

/// The JSON report opens with its "equivalent" field, which is the report's own
/// verdict.
pub proof fn lemma_json_verdict(r: LecReport)
    ensures
        r.equivalent ==> "{\n  \"equivalent\": true,\n"@.is_prefix_of(json_spec(r)),
        !r.equivalent ==> "{\n  \"equivalent\": false,\n"@.is_prefix_of(json_spec(r)),
{
    reveal_strlit("{\n");
    reveal_strlit("  \"equivalent\": ");
    reveal_strlit("true");
    reveal_strlit("false");
    reveal_strlit(",\n");
    reveal_strlit("{\n  \"equivalent\": true,\n");
    reveal_strlit("{\n  \"equivalent\": false,\n");
    let j = json_spec(r);
    if r.equivalent {
        let p = "{\n  \"equivalent\": true,\n"@;
        assert(j.subrange(0, p.len() as int) =~= p);
    } else {
        let p = "{\n  \"equivalent\": false,\n"@;
        assert(j.subrange(0, p.len() as int) =~= p);
    }
}

/// The JSON report gives the endpoints found in one design under the key of
/// that design: the golden list after "only_in_golden", the revised list after
/// "only_in_revised".
pub proof fn lemma_json_only_in_keys(r: LecReport)
    ensures
        has_piece(json_spec(r), "  \"only_in_golden\": "@ + debug_list(r.only_in_golden@) + ",\n"@),
        has_piece(json_spec(r), "  \"only_in_revised\": "@ + debug_list(r.only_in_revised@) + "\n"@),
{
    let pre = "{\n"@ + "  \"equivalent\": "@ + bool_text(r.equivalent) + ",\n"@ + "  \"compared\": "@ + decimal_spec(
        r.compared as nat,
    ) + ",\n"@ + "  \"mismatches\": [\n"@ + json_mismatches(r.mismatches@, r.mismatches@.len()) + "  ],\n"@;
    let g = "  \"only_in_golden\": "@ + debug_list(r.only_in_golden@) + ",\n"@;
    let v = "  \"only_in_revised\": "@ + debug_list(r.only_in_revised@) + "\n"@;
    let tail = "}\n"@;
    assert(json_spec(r) =~= pre + g + v + tail);
    assert((pre + g + v + tail).subrange(pre.len() as int, (pre.len() + g.len()) as int) =~= g);
    assert((pre + g + v + tail).subrange((pre.len() + g.len()) as int, (pre.len() + g.len() + v.len()) as int) =~= v);
}

} // verus!
