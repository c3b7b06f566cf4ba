//! Scenarios for the escaper, the attribute-value normalizer and the two
//! property checks.

use quick_xml::attributes::{AttrValueError, Attribute, EscapeError};
use quick_xml::escape::escape_char;
use quick_xml::etna::{
    escape_char_to_string, property_escape_char_codes, property_unescape_predef_entities,
    PropertyResult,
};

fn normalize(raw: &[u8]) -> Result<String, AttrValueError> {
    let attr = Attribute { key: b"x".to_vec(), value: raw.to_vec() };
    attr.normalized_value()
}

const ESCAPABLE: [u8; 9] = [b'<', b'>', b'\'', b'&', b'"', b'\t', b'\n', b'\r', b' '];

#[test]
fn escape_codes_of_each_byte() {
    assert_eq!(escape_char_to_string(b'<'), "&lt;");
    assert_eq!(escape_char_to_string(b'>'), "&gt;");
    assert_eq!(escape_char_to_string(b'\''), "&apos;");
    assert_eq!(escape_char_to_string(b'&'), "&amp;");
    assert_eq!(escape_char_to_string(b'"'), "&quot;");
    assert_eq!(escape_char_to_string(b'\t'), "&#9;");
    assert_eq!(escape_char_to_string(b'\n'), "&#10;");
    assert_eq!(escape_char_to_string(b'\r'), "&#13;");
    assert_eq!(escape_char_to_string(b' '), "&#32;");
}

#[test]
fn whitespace_escapes_name_their_code_point() {
    for b in [b'\t', b'\n', b'\r', b' '] {
        assert_eq!(escape_char_to_string(b), format!("&#{};", b));
    }
}

#[test]
fn escape_char_copies_the_text_before_the_escaped_character() {
    let mut out = String::from("[");
    escape_char(&mut out, "ab<cd", 0, 2);
    assert_eq!(out, "[ab&lt;");
    let mut out = String::new();
    escape_char(&mut out, "x y", 1, 1);
    assert_eq!(out, "&#32;");
    let mut out = String::new();
    escape_char(&mut out, "é\n", 0, 2);
    assert_eq!(out, "é&#10;");
    let mut out = String::new();
    escape_char(&mut out, "aé\t", 1, 3);
    assert_eq!(out, "é&#9;");
}

#[test]
fn escaped_byte_normalizes_back() {
    for b in ESCAPABLE {
        let escaped = escape_char_to_string(b);
        assert_eq!(normalize(escaped.as_bytes()), Ok((b as char).to_string()));
    }
}

#[test]
fn escape_property_passes_on_every_escapable_byte() {
    for b in ESCAPABLE {
        assert_eq!(property_escape_char_codes(b), PropertyResult::Pass);
    }
}

#[test]
fn escape_property_discards_other_bytes() {
    for b in 0u8..=255 {
        if !ESCAPABLE.contains(&b) {
            assert_eq!(property_escape_char_codes(b), PropertyResult::Discard);
        }
    }
}

#[test]
fn normalize_resolves_predefined_entities() {
    assert_eq!(normalize(b"&lt;"), Ok("<".to_string()));
    assert_eq!(normalize(b"&gt;&amp;&apos;&quot;"), Ok(">&'\"".to_string()));
    assert_eq!(normalize(b"a&lt;b&amp;c"), Ok("a<b&c".to_string()));
}

#[test]
fn normalize_expands_character_references() {
    assert_eq!(
        normalize(b"&#65;&#x42;&#X41;"),
        Err(AttrValueError::Escape(EscapeError::InvalidCharRef))
    );
    assert_eq!(normalize(b"&#65;&#x42;&#x6a;"), Ok("ABj".to_string()));
    assert_eq!(normalize(b"&#x1F600;"), Ok("\u{1F600}".to_string()));
    assert_eq!(normalize(b"&#0065;"), Ok("A".to_string()));
    assert_eq!(normalize(b"&#10;"), Ok("\n".to_string()));
}

#[test]
fn normalize_turns_line_breaks_and_tabs_into_spaces() {
    assert_eq!(normalize(b"a\tb\nc\rd e"), Ok("a b c d e".to_string()));
    assert_eq!(normalize(b"a\r\nb"), Ok("a b".to_string()));
    assert_eq!(normalize(b"a\n\rb"), Ok("a  b".to_string()));
}

#[test]
fn normalize_keeps_other_text() {
    assert_eq!(normalize(b""), Ok(String::new()));
    assert_eq!(normalize("héllo <wörld>".as_bytes()), Ok("héllo <wörld>".to_string()));
}

#[test]
fn normalize_errors() {
    assert_eq!(normalize(b"&lt"), Err(AttrValueError::Escape(EscapeError::UnterminatedEntity)));
    assert_eq!(normalize(b"a & b"), Err(AttrValueError::Escape(EscapeError::UnterminatedEntity)));
    assert_eq!(normalize(b"&foo;"), Err(AttrValueError::Escape(EscapeError::UnrecognizedEntity)));
    assert_eq!(normalize(b"&;"), Err(AttrValueError::Escape(EscapeError::UnrecognizedEntity)));
    assert_eq!(normalize(b"&#;"), Err(AttrValueError::Escape(EscapeError::InvalidCharRef)));
    assert_eq!(normalize(b"&#x;"), Err(AttrValueError::Escape(EscapeError::InvalidCharRef)));
    assert_eq!(normalize(b"&#0;"), Err(AttrValueError::Escape(EscapeError::InvalidCharRef)));
    assert_eq!(normalize(b"&#xD800;"), Err(AttrValueError::Escape(EscapeError::InvalidCharRef)));
    assert_eq!(normalize(b"&#x110000;"), Err(AttrValueError::Escape(EscapeError::InvalidCharRef)));
    assert_eq!(normalize(b"&#99999999999;"), Err(AttrValueError::Escape(EscapeError::InvalidCharRef)));
    assert_eq!(normalize(b"&#12a;"), Err(AttrValueError::Escape(EscapeError::InvalidCharRef)));
    assert_eq!(normalize(b"&#xg;"), Err(AttrValueError::Escape(EscapeError::InvalidCharRef)));
    assert_eq!(normalize(&[0xff, 0x41]), Err(AttrValueError::NonDecodable));
}

#[test]
fn error_debug_text_matches_derived_debug() {
    let errors = [
        AttrValueError::NonDecodable,
        AttrValueError::Escape(EscapeError::UnterminatedEntity),
        AttrValueError::Escape(EscapeError::UnrecognizedEntity),
        AttrValueError::Escape(EscapeError::InvalidCharRef),
    ];
    for e in errors {
        assert_eq!(e.debug_text(), format!("{:?}", e));
    }
}

#[test]
fn entity_property_passes_in_its_domain() {
    for input in [
        &b""[..],
        b"abc123",
        b"&amp;",
        b"&apos;&quot;",
        b"Z&lt;&gt;&amp;&apos;&quot;9",
    ] {
        assert_eq!(property_unescape_predef_entities(input.to_vec()), PropertyResult::Pass);
    }
}

#[test]
fn entity_property_discards_outside_its_domain() {
    for input in [
        &b"a b"[..],
        b"&foo;",
        b"&lt",
        b"&#60;",
        b"x\ny",
        b"caf\xc3\xa9",
        b"\xff",
        b"a&",
    ] {
        assert_eq!(property_unescape_predef_entities(input.to_vec()), PropertyResult::Discard);
    }
}

fn escape_markup(s: &[u8]) -> Vec<u8> {
    let mut e = Vec::new();
    for &c in s {
        if c.is_ascii_alphanumeric() {
            e.push(c);
        } else {
            e.extend_from_slice(escape_char_to_string(c).as_bytes());
        }
    }
    e
}

#[test]
fn escaped_markup_expands_back() {
    let s = b"a<b>&c'd\"1Z";
    let e = escape_markup(s);
    assert_eq!(e, b"a&lt;b&gt;&amp;c&apos;d&quot;1Z".to_vec());
    assert_eq!(property_unescape_predef_entities(e.clone()), PropertyResult::Pass);
    assert_eq!(normalize(&e), Ok(String::from_utf8(s.to_vec()).unwrap()));
}

#[test]
fn domain_texts_concatenate() {
    let a = b"x&lt;".to_vec();
    let b = b"&amp;9".to_vec();
    let ab = [a.clone(), b.clone()].concat();
    assert_eq!(property_unescape_predef_entities(a.clone()), PropertyResult::Pass);
    assert_eq!(property_unescape_predef_entities(b.clone()), PropertyResult::Pass);
    assert_eq!(property_unescape_predef_entities(ab.clone()), PropertyResult::Pass);
    let joined = format!("{}{}", normalize(&a).unwrap(), normalize(&b).unwrap());
    assert_eq!(normalize(&ab), Ok(joined));
}
