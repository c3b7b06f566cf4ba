//! Scenarios for the run bookkeeping and the JSON report line.

use quick_xml::etna::PropertyResult;
use quick_xml::harness::{
    combine_runs, json_report, json_str, run_etna_witness, same_text, to_err, Metrics,
};

#[test]
fn json_str_escapes_quotes_backslashes_and_controls() {
    assert_eq!(json_str("plain"), "\"plain\"");
    assert_eq!(json_str("a\"b\\c"), "\"a\\\"b\\\\c\"");
    assert_eq!(json_str("\n\r\t"), "\"\\n\\r\\t\"");
    assert_eq!(json_str("\u{1}\u{1f}"), "\"\\u0001\\u001f\"");
    assert_eq!(json_str("\u{7f} é"), "\"\u{7f} é\"");
    assert_eq!(json_str(""), "\"\"");
}

#[test]
fn json_report_line_of_a_passed_run() {
    let m = Metrics { inputs: 200, elapsed_us: 1234 };
    assert_eq!(
        json_report("proptest", "EscapeCharCodes", "passed", m, None, None),
        "{\"status\":\"passed\",\"tests\":200,\"discards\":0,\"time\":\"1234us\",\
         \"counterexample\":null,\"error\":null,\"tool\":\"proptest\",\
         \"property\":\"EscapeCharCodes\"}"
    );
}

#[test]
fn json_report_line_of_a_failed_run() {
    let m = Metrics { inputs: 0, elapsed_us: 0 };
    assert_eq!(
        json_report("etna", "All", "failed", m, Some("(\"&lt;\")"), Some("boom\n")),
        "{\"status\":\"failed\",\"tests\":0,\"discards\":0,\"time\":\"0us\",\
         \"counterexample\":\"(\\\"&lt;\\\")\",\"error\":\"boom\\n\",\"tool\":\"etna\",\
         \"property\":\"All\"}"
    );
    let m = Metrics { inputs: u64::MAX, elapsed_us: u128::MAX };
    let line = json_report("t", "p", "s", m, None, None);
    assert!(line.contains(&format!("\"tests\":{},", u64::MAX)));
    assert!(line.contains(&format!("\"time\":\"{}us\"", u128::MAX)));
}

#[test]
fn metrics_add_up() {
    let a = Metrics { inputs: 3, elapsed_us: 10 };
    let b = Metrics { inputs: 4, elapsed_us: 5 };
    let c = a.combine(b);
    assert_eq!((c.inputs, c.elapsed_us), (7, 15));
    let d = Metrics::default();
    assert_eq!((d.inputs, d.elapsed_us), (0, 0));
}

#[test]
fn discarded_input_is_no_failure() {
    assert_eq!(to_err(PropertyResult::Pass), Ok(()));
    assert_eq!(to_err(PropertyResult::Discard), Ok(()));
    assert_eq!(to_err(PropertyResult::Fail("x".to_string())), Err("x".to_string()));
}

#[test]
fn combined_runs_keep_the_first_failure() {
    let runs = vec![
        (Ok(()), Metrics { inputs: 1, elapsed_us: 2 }),
        (Err("first".to_string()), Metrics { inputs: 3, elapsed_us: 4 }),
        (Err("second".to_string()), Metrics { inputs: 5, elapsed_us: 6 }),
    ];
    let (status, m) = combine_runs(&runs);
    assert_eq!(status, Err("first".to_string()));
    assert_eq!((m.inputs, m.elapsed_us), (9, 12));
    let (status, m) = combine_runs(&vec![]);
    assert_eq!(status, Ok(()));
    assert_eq!((m.inputs, m.elapsed_us), (0, 0));
}

#[test]
fn witness_runs() {
    assert_eq!(run_etna_witness("UnescapePredefEntities"), Some(Ok(())));
    assert_eq!(run_etna_witness("EscapeCharCodes"), Some(Ok(())));
    assert_eq!(run_etna_witness("All"), None);
    assert_eq!(run_etna_witness("escapecharcodes"), None);
}

#[test]
fn same_text_compares_characters() {
    assert!(same_text("abc", "abc"));
    assert!(!same_text("abc", "abd"));
    assert!(!same_text("abc", "ab"));
    assert!(same_text("", ""));
}
