use vyges_lec::lec::{LecReport, Mismatch};
use vyges_lec::report::{decimal, render_json, render_text};

fn differing() -> LecReport {
    LecReport {
        equivalent: false,
        compared: 2,
        mismatches: vec![Mismatch {
            endpoint: "y".to_string(),
            counterexample: vec![("a".to_string(), true), ("b".to_string(), false)],
        }],
        only_in_golden: vec!["g".to_string()],
        only_in_revised: vec![],
    }
}

#[test]
fn decimal_numerals() {
    assert_eq!(decimal(0), "0");
    assert_eq!(decimal(7), "7");
    assert_eq!(decimal(10), "10");
    assert_eq!(decimal(1234), "1234");
    assert_eq!(decimal(usize::MAX), usize::MAX.to_string());
}

#[test]
fn text_of_an_equivalent_report() {
    let r = LecReport {
        equivalent: true,
        compared: 1,
        mismatches: vec![],
        only_in_golden: vec![],
        only_in_revised: vec![],
    };
    assert_eq!(render_text(&r), "vyges-lec — EQUIVALENT ✓  (1 endpoint(s) proven)\n");
}

#[test]
fn text_of_a_differing_report() {
    let expected = "vyges-lec — NOT EQUIVALENT ✗  (2 compared, 1 differ)\n\
                    \x20 differ at `y`   when a=1 b=0\n\
                    \x20 only in golden:  g\n";
    assert_eq!(render_text(&differing()), expected);
}

#[test]
fn text_lists_at_most_a_hundred_mismatches() {
    let mut r = differing();
    r.mismatches = (0..150)
        .map(|i| Mismatch { endpoint: format!("e{i}"), counterexample: vec![] })
        .collect();
    r.only_in_golden = vec![];
    let text = render_text(&r);
    assert!(text.starts_with("vyges-lec — NOT EQUIVALENT ✗  (2 compared, 150 differ)\n"));
    assert_eq!(text.matches("differ at").count(), 100);
    assert!(text.contains("  differ at `e99`   when \n"));
    assert!(!text.contains("`e100`"));
}

#[test]
fn json_of_a_differing_report() {
    let expected = "{\n  \"equivalent\": false,\n  \"compared\": 2,\n  \"mismatches\": [\n    \
                    {\"endpoint\": \"y\", \"counterexample\": {\"a\": true, \"b\": false}}\n  ],\n  \
                    \"only_in_golden\": [\"g\"],\n  \"only_in_revised\": []\n}\n";
    assert_eq!(render_json(&differing()), expected);
}

#[test]
fn json_separates_mismatches_with_commas_and_escapes_names() {
    let mut r = differing();
    r.mismatches.push(Mismatch { endpoint: "z".to_string(), counterexample: vec![] });
    r.only_in_golden = vec!["q\"x".to_string(), "p".to_string()];
    let json = render_json(&r);
    assert!(json.contains("{\"a\": true, \"b\": false}},\n"));
    assert!(json.contains("    {\"endpoint\": \"z\", \"counterexample\": {}}\n  ],\n"));
    assert!(json.contains("  \"only_in_golden\": [\"q\\\"x\", \"p\"],\n"));
}
