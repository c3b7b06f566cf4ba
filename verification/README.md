# quick-xml: verified attribute normalization and `xs:list` escaping

A Verus library with two pieces of XML text handling and the property
checks that exercise them.

- `src/escape.rs` — `escape_char`, the writer that escapes one character of
  an `xs:list` item (entity references for markup characters, decimal
  character references for the list separators).
- `src/attributes.rs` — `Attribute::normalized_value`: UTF-8 decoding,
  expansion of predefined entities and character references, and the
  XML 1.0 whitespace normalization of attribute values.
- `src/etna.rs` — `property_unescape_predef_entities` and
  `property_escape_char_codes`, whose contracts state that each property
  holds on every input of its domain.
- `src/harness.rs` — bookkeeping of a run over the properties and the
  one-line JSON report.
- `src/text.rs` — the few `std` calls the library makes on text.
- `app/main.rs` — the command-line runner that drives proptest,
  quickcheck, crabcheck and hegel over the two properties.
