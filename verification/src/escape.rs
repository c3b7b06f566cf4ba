//! Escaping of single characters for the `xs:list` serializer.
//!
//! Besides the five characters that XML markup reserves, the serializer of
//! `xs:list` values escapes the whitespace characters that separate list
//! items, writing them as decimal character references.
use vstd::prelude::*;
use vstd::string::*;
use vstd::utf8::*;

use crate::text::decimal_digits;
use crate::attributes::{
    all_digits, digits_value, lemma_find_semicolon_at, normalize_from, normalized_attr_value,
    resolve_reference, lemma_normalize_one_reference, AttrValueError, EscapeError,
};

verus! {

/// The characters that `escape_char` knows how to escape.
pub open spec fn is_escapable(c: char) -> bool {
    ||| c == '<'
    ||| c == '>'
    ||| c == '\''
    ||| c == '&'
    ||| c == '"'
    ||| c == '\t'
    ||| c == '\n'
    ||| c == '\r'
    ||| c == ' '
}

/// The text that stands for an escapable character: an entity reference
/// for the markup characters, a decimal character reference for the
/// whitespace ones.
pub open spec fn escape_code(c: char) -> Seq<char> {
    if c == '<' {
        seq!['&', 'l', 't', ';']
    } else if c == '>' {
        seq!['&', 'g', 't', ';']
    } else if c == '\'' {
        seq!['&', 'a', 'p', 'o', 's', ';']
    } else if c == '&' {
        seq!['&', 'a', 'm', 'p', ';']
    } else if c == '"' {
        seq!['&', 'q', 'u', 'o', 't', ';']
    } else if c == '\t' {
        seq!['&', '#', '9', ';']
    } else if c == '\n' {
        seq!['&', '#', '1', '0', ';']
    } else if c == '\r' {
        seq!['&', '#', '1', '3', ';']
    } else {
        seq!['&', '#', '3', '2', ';']
    }
}

/// Writes the text of `value` at byte positions `from..to` unchanged,
/// then the escape of the byte at position `to`.
///
/// Positions count bytes of the UTF-8 encoding; `from` must fall on a
/// character boundary. The byte at `to` must be one that the serializer
/// escapes (all of them are ASCII, so `to` is a boundary too).
pub fn escape_char(writer: &mut String, value: &str, from: usize, to: usize)
    requires
        from <= to < value.spec_bytes().len(),
        is_char_boundary(value.spec_bytes(), from as int),
        is_escapable(value.spec_bytes()[to as int] as char),
    ensures
        final(writer)@ == old(writer)@ + decode_utf8(
            value.spec_bytes().subrange(from as int, to as int),
        ) + escape_code(value.spec_bytes()[to as int] as char),
{
    let ghost bytes = value.spec_bytes();
    let b = value.as_bytes()[to];
    proof {
        encode_utf8_valid_utf8(value@);
        is_char_boundary_iff_not_is_continuation_byte(bytes, to as int);
        if from < to {
            is_char_boundary_iff_not_is_continuation_byte(bytes, from as int);
        }
    }
    let (head, _) = value.split_at(to);
    proof {
        valid_utf8_split(bytes, to as int);
        let hb = head.spec_bytes();
        if from < to {
            assert(hb[from as int] == bytes[from as int]);
            is_char_boundary_iff_not_is_continuation_byte(hb, from as int);
        } else {
            is_char_boundary_start_end_of_seq(hb);
        }
    }
    let (_, mid) = head.split_at(from);
    proof {
        assert(mid.spec_bytes() =~= bytes.subrange(from as int, to as int));
        encode_utf8_decode_utf8(mid@);
    }
    writer.append(mid);
    let c = b as char;
    if c == '<' {
        writer.append("&lt;");
        proof { reveal_strlit("&lt;"); }
    } else if c == '>' {
        writer.append("&gt;");
        proof { reveal_strlit("&gt;"); }
    } else if c == '\'' {
        writer.append("&apos;");
        proof { reveal_strlit("&apos;"); }
    } else if c == '&' {
        writer.append("&amp;");
        proof { reveal_strlit("&amp;"); }
    } else if c == '"' {
        writer.append("&quot;");
        proof { reveal_strlit("&quot;"); }
    } else if c == '\t' {
        writer.append("&#9;");
        proof { reveal_strlit("&#9;"); }
    } else if c == '\n' {
        writer.append("&#10;");
        proof { reveal_strlit("&#10;"); }
    } else if c == '\r' {
        writer.append("&#13;");
        proof { reveal_strlit("&#13;"); }
    } else {
        writer.append("&#32;");
        proof { reveal_strlit("&#32;"); }
    }
    assert(writer@ =~= old(writer)@ + decode_utf8(bytes.subrange(from as int, to as int))
        + escape_code(c));
}

/// The whitespace characters that separate the items of an `xs:list`
/// are escaped as decimal character references that name the character's
/// own code point.
pub proof fn lemma_whitespace_escape_is_char_ref(c: char)
    requires
        c == '\t' || c == '\n' || c == '\r' || c == ' ',
    ensures
        escape_code(c) == seq!['&', '#'] + decimal_digits(c as nat) + seq![';'],
{
    reveal_with_fuel(decimal_digits, 2);
    if c == '\t' {
        assert(decimal_digits(9) =~= seq!['9']);
    } else if c == '\n' {
        assert(decimal_digits(1) =~= seq!['1']);
        assert(decimal_digits(10) =~= seq!['1', '0']);
    } else if c == '\r' {
        assert(decimal_digits(1) =~= seq!['1']);
        assert(decimal_digits(13) =~= seq!['1', '3']);
    } else {
        assert(decimal_digits(3) =~= seq!['3']);
        assert(decimal_digits(32) =~= seq!['3', '2']);
    }
    assert(escape_code(c) =~= seq!['&', '#'] + decimal_digits(c as nat) + seq![';']);
}

/// The decimal reference `&#` `ds` `;` names the character whose code is
/// the value of `ds`.
proof fn lemma_decimal_reference(ds: Seq<char>, c: char)
    requires
        ds.len() > 0,
        ds[0] != 'x',
        all_digits(ds, false),
        digits_value(ds, false) == c as nat,
        c as nat > 0,
    ensures
        resolve_reference(seq!['#'] + ds) == Ok::<char, EscapeError>(c),
{
    assert((seq!['#'] + ds).skip(1) =~= ds);
}

/// Normalizing, as an attribute value, what `escape_char` writes for a
/// character gives back exactly that character: the escape of an `xs:list`
/// separator survives attribute-value normalization.
pub proof fn lemma_escape_then_normalize(c: char)
    requires
        is_escapable(c),
    ensures
        normalize_from(escape_code(c), 0) == Ok::<Seq<char>, EscapeError>(seq![c]),
        normalized_attr_value(encode_utf8(escape_code(c))) == Ok::<Seq<char>, AttrValueError>(
            seq![c],
        ),
{
    encode_utf8_valid_utf8(escape_code(c));
    encode_utf8_decode_utf8(escape_code(c));
    let name = escape_code(c).subrange(1, escape_code(c).len() - 1);
    assert(escape_code(c) =~= seq!['&'] + name + seq![';']);
    if c == '<' {
        assert(name =~= seq!['l', 't']);
    } else if c == '>' {
        assert(name =~= seq!['g', 't']);
    } else if c == '\'' {
        assert(name =~= seq!['a', 'p', 'o', 's']);
    } else if c == '&' {
        assert(name =~= seq!['a', 'm', 'p']);
    } else if c == '"' {
        assert(name =~= seq!['q', 'u', 'o', 't']);
    } else {
        let ds = name.skip(1);
        assert(name =~= seq!['#'] + ds);
        reveal_with_fuel(digits_value, 3);
        if c == '\t' {
            assert(ds =~= seq!['9']);
            assert(ds.drop_last() =~= Seq::<char>::empty());
        } else if c == '\n' {
            assert(ds =~= seq!['1', '0']);
            assert(ds.drop_last() =~= seq!['1']);
            assert(ds.drop_last().drop_last() =~= Seq::<char>::empty());
        } else if c == '\r' {
            assert(ds =~= seq!['1', '3']);
            assert(ds.drop_last() =~= seq!['1']);
            assert(ds.drop_last().drop_last() =~= Seq::<char>::empty());
        } else {
            assert(ds =~= seq!['3', '2']);
            assert(ds.drop_last() =~= seq!['3']);
            assert(ds.drop_last().drop_last() =~= Seq::<char>::empty());
        }
        lemma_decimal_reference(ds, c);
    }
    lemma_normalize_one_reference(name, c);
}

} // verus!
