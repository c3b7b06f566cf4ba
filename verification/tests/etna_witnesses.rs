//! Witness inputs for the two properties: each must pass.

use quick_xml::etna::{
    property_escape_char_codes, property_unescape_predef_entities, PropertyResult,
};

fn assert_pass(r: PropertyResult) {
    match r {
        PropertyResult::Pass => {}
        PropertyResult::Fail(m) => panic!("property failed: {m}"),
        PropertyResult::Discard => panic!("property unexpectedly discarded"),
    }
}

#[test]
fn witness_unescape_predef_entities_case_lt() {
    // "&lt;" must decode to "<".
    assert_pass(property_unescape_predef_entities(b"&lt;".to_vec()));
}

#[test]
fn witness_unescape_predef_entities_case_gt() {
    // "&gt;" must decode to ">".
    assert_pass(property_unescape_predef_entities(b"&gt;".to_vec()));
}

#[test]
fn witness_unescape_predef_entities_case_combo() {
    // Several entities mixed with literal letters.
    assert_pass(property_unescape_predef_entities(
        b"a&lt;b&amp;c&gt;d&quot;e&apos;f".to_vec(),
    ));
}

#[test]
fn witness_escape_char_codes_case_lf() {
    assert_pass(property_escape_char_codes(b'\n'));
}

#[test]
fn witness_escape_char_codes_case_cr() {
    assert_pass(property_escape_char_codes(b'\r'));
}

#[test]
fn witness_escape_char_codes_case_lt() {
    assert_pass(property_escape_char_codes(b'<'));
}
