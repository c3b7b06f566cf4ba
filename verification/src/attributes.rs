//! Normalization of attribute values (XML 1.0, section 3.3.3).
//!
//! An attribute value is decoded from UTF-8, then read left to right:
//! an entity or character reference is replaced by the character it
//! stands for, a tab, line feed or carriage return becomes a space (a
//! carriage return followed by a line feed counts as one line end), and
//! every other character is kept.
use vstd::prelude::*;
use vstd::string::*;
use vstd::utf8::*;
use vstd::arithmetic::power::pow;

use crate::text::{chars_of, char_from_u32, string_of, utf8_str};

verus! {

/// Why a reference inside an attribute value could not be expanded.
#[derive(Debug, Clone, Copy, PartialEq, Eq, Structural)]
pub enum EscapeError {
    /// An `&` with no `;` after it.
    UnterminatedEntity,
    /// `&name;` where `name` is none of the predefined entities.
    UnrecognizedEntity,
    /// `&#...;` whose digits are missing or malformed, or whose value is
    /// zero or no Unicode scalar value.
    InvalidCharRef,
}

/// Why an attribute value could not be normalized.
#[derive(Debug, Clone, Copy, PartialEq, Eq, Structural)]
pub enum AttrValueError {
    /// The raw value is not valid UTF-8.
    NonDecodable,
    /// A reference in the value could not be expanded.
    Escape(EscapeError),
}

/// An attribute: its name and its raw value, both as bytes.
pub struct Attribute {
    pub key: Vec<u8>,
    pub value: Vec<u8>,
}

/// The character that a predefined entity name stands for.
pub open spec fn predefined_entity(name: Seq<char>) -> Option<char> {
    if name == seq!['l', 't'] {
        Some('<')
    } else if name == seq!['g', 't'] {
        Some('>')
    } else if name == seq!['a', 'm', 'p'] {
        Some('&')
    } else if name == seq!['a', 'p', 'o', 's'] {
        Some('\'')
    } else if name == seq!['q', 'u', 'o', 't'] {
        Some('"')
    } else {
        None
    }
}

/// A decimal digit, or with `hex` also a hexadecimal one in either case.
pub open spec fn is_digit(c: char, hex: bool) -> bool {
    ||| ('0' <= c && c <= '9')
    ||| (hex && 'a' <= c && c <= 'f')
    ||| (hex && 'A' <= c && c <= 'F')
}

/// The value of a digit.
pub open spec fn digit_value(c: char) -> nat {
    if '0' <= c && c <= '9' {
        (c as nat - '0' as nat) as nat
    } else if 'a' <= c && c <= 'f' {
        (c as nat - 'a' as nat + 10) as nat
    } else {
        (c as nat - 'A' as nat + 10) as nat
    }
}

pub open spec fn radix(hex: bool) -> nat {
    if hex {
        16
    } else {
        10
    }
}

/// The number that a string of digits writes, most significant first.
pub open spec fn digits_value(ds: Seq<char>, hex: bool) -> nat
    decreases ds.len(),
{
    if ds.len() == 0 {
        0
    } else {
        digits_value(ds.drop_last(), hex) * radix(hex) + digit_value(ds.last())
    }
}

pub open spec fn all_digits(ds: Seq<char>, hex: bool) -> bool {
    forall|k: int| 0 <= k < ds.len() ==> #[trigger] is_digit(ds[k], hex)
}

/// A value that a character reference may name: not zero, and a
/// Unicode scalar value.
pub open spec fn is_char_ref_value(v: nat) -> bool {
    0 < v <= 0x10FFFF && !(0xD800 <= v <= 0xDFFF)
}

/// The character named by the text between `&#` and `;`: decimal
/// digits, or `x` and hexadecimal digits.
pub open spec fn char_ref(num: Seq<char>) -> Result<char, EscapeError> {
    let hex = num.len() > 0 && num[0] == 'x';
    let ds = if hex {
        num.skip(1)
    } else {
        num
    };
    if ds.len() > 0 && all_digits(ds, hex) && is_char_ref_value(digits_value(ds, hex)) {
        Ok(digits_value(ds, hex) as char)
    } else {
        Err(EscapeError::InvalidCharRef)
    }
}

/// The character named by the text between `&` and `;`.
pub open spec fn resolve_reference(name: Seq<char>) -> Result<char, EscapeError> {
    if name.len() > 0 && name[0] == '#' {
        char_ref(name.skip(1))
    } else {
        match predefined_entity(name) {
            Some(c) => Ok(c),
            None => Err(EscapeError::UnrecognizedEntity),
        }
    }
}

/// The position of the first `;` at or after position `i`.
pub open spec fn find_semicolon(s: Seq<char>, i: int) -> Option<int>
    decreases s.len() - i,
{
    if i < 0 || i >= s.len() {
        None
    } else if s[i] == ';' {
        Some(i)
    } else {
        find_semicolon(s, i + 1)
    }
}

pub proof fn lemma_find_semicolon(s: Seq<char>, i: int)
    requires
        0 <= i,
    ensures
        find_semicolon(s, i) matches Some(j) ==> i <= j < s.len() && s[j] == ';',
        find_semicolon(s, i) is None ==> forall|k: int| i <= k < s.len() ==> s[k] != ';',
    decreases s.len() - i,
{
    if i < s.len() && s[i] != ';' {
        lemma_find_semicolon(s, i + 1);
    }
}

/// Where `s[j]` is the first `;` from `from` on, the search finds it.
pub proof fn lemma_find_semicolon_at(s: Seq<char>, from: int, j: int)
    requires
        0 <= from <= j < s.len(),
        s[j] == ';',
        forall|k: int| from <= k < j ==> s[k] != ';',
    ensures
        find_semicolon(s, from) == Some(j),
    decreases j - from,
{
    if from < j {
        lemma_find_semicolon_at(s, from + 1, j);
    }
}

pub open spec fn is_line_break_or_tab(c: char) -> bool {
    c == '\t' || c == '\n' || c == '\r'
}

/// `prefix` put in front of a successful result.
pub open spec fn prepend(prefix: Seq<char>, r: Result<Seq<char>, EscapeError>) -> Result<
    Seq<char>,
    EscapeError,
> {
    match r {
        Ok(t) => Ok(prefix + t),
        Err(e) => Err(e),
    }
}

/// The normalization of the characters of `s` from position `i` on.
pub open spec fn normalize_from(s: Seq<char>, i: int) -> Result<Seq<char>, EscapeError>
    decreases s.len() - i,
{
    if i < 0 || i >= s.len() {
        Ok(Seq::empty())
    } else if s[i] == '&' {
        proof {
            lemma_find_semicolon(s, i + 1);
        }
        match find_semicolon(s, i + 1) {
            None => Err(EscapeError::UnterminatedEntity),
            Some(j) => match resolve_reference(s.subrange(i + 1, j)) {
                Ok(c) => prepend(seq![c], normalize_from(s, j + 1)),
                Err(e) => Err(e),
            },
        }
    } else if s[i] == '\r' && i + 1 < s.len() && s[i + 1] == '\n' {
        prepend(seq![' '], normalize_from(s, i + 2))
    } else if is_line_break_or_tab(s[i]) {
        prepend(seq![' '], normalize_from(s, i + 1))
    } else {
        prepend(seq![s[i]], normalize_from(s, i + 1))
    }
}

/// The normalized value of the raw bytes of an attribute value.
pub open spec fn normalized_attr_value(raw: Seq<u8>) -> Result<Seq<char>, AttrValueError> {
    if !valid_utf8(raw) {
        Err(AttrValueError::NonDecodable)
    } else {
        match normalize_from(decode_utf8(raw), 0) {
            Ok(t) => Ok(t),
            Err(e) => Err(AttrValueError::Escape(e)),
        }
    }
}

/// A text made of one reference normalizes to the character the
/// reference names.
pub proof fn lemma_normalize_one_reference(name: Seq<char>, c: char)
    requires
        forall|k: int| 0 <= k < name.len() ==> name[k] != ';',
        resolve_reference(name) == Ok::<char, EscapeError>(c),
    ensures
        normalize_from(seq!['&'] + name + seq![';'], 0) == Ok::<Seq<char>, EscapeError>(seq![c]),
{
    let e = seq!['&'] + name + seq![';'];
    let j = name.len() as int + 1;
    assert(e[0] == '&');
    assert(e[j] == ';');
    assert forall|k: int| 1 <= k < j implies e[k] != ';' by {
        assert(e[k] == name[k - 1]);
    }
    lemma_find_semicolon_at(e, 1, j);
    assert(e.subrange(1, j) =~= name);
    assert(normalize_from(e, j + 1) == Ok::<Seq<char>, EscapeError>(Seq::empty()));
    assert(seq![c] + Seq::<char>::empty() =~= seq![c]);
}

/// Normalizing the UTF-8 bytes of a text is normalizing the text.
pub proof fn lemma_normalize_encoded(t: Seq<char>)
    ensures
        normalized_attr_value(encode_utf8(t)) == (match normalize_from(t, 0) {
            Ok(u) => Ok::<Seq<char>, AttrValueError>(u),
            Err(e) => Err(AttrValueError::Escape(e)),
        }),
{
    encode_utf8_valid_utf8(t);
    encode_utf8_decode_utf8(t);
}

/// Which characters are digits, and what they are worth: `0`-`9` are
/// decimal digits worth 0 to 9; with hexadecimal digits also `a`-`f` and
/// `A`-`F`, worth 10 to 15, and nothing else.
pub proof fn lemma_digits(c: char)
    ensures
        is_digit(c, false) <==> ('0' <= c && c <= '9'),
        is_digit(c, true) <==> (('0' <= c && c <= '9') || ('a' <= c && c <= 'f') || ('A' <= c
            && c <= 'F')),
        '0' <= c && c <= '9' ==> digit_value(c) == c as nat - '0' as nat,
        'a' <= c && c <= 'f' ==> digit_value(c) == c as nat - 'a' as nat + 10,
        'A' <= c && c <= 'F' ==> digit_value(c) == c as nat - 'A' as nat + 10,
{
}

/// A string of digits is read most significant first: a leading digit
/// counts `radix` to the power of the number of digits after it.
pub proof fn lemma_digits_value_leading(c: char, ds: Seq<char>, hex: bool)
    ensures
        digits_value(seq![c] + ds, hex) == digit_value(c) * pow(radix(hex) as int, ds.len())
            + digits_value(ds, hex),
    decreases ds.len(),
{
    if ds.len() == 0 {
        let one = seq![c];
        assert(one.drop_last() =~= Seq::<char>::empty());
        assert(pow(radix(hex) as int, 0) == 1) by {
            reveal(pow);
        }
        assert(one.last() == c);
        assert(one.len() == 1);
        assert(digits_value(one.drop_last(), hex) == 0);
        assert(digits_value(one, hex) == digits_value(one.drop_last(), hex) * radix(hex)
            + digit_value(one.last()));
        assert(digits_value(one, hex) == digit_value(c));
        assert(ds =~= Seq::<char>::empty());
        assert(seq![c] + ds =~= one);
    } else {
        let front = ds.drop_last();
        lemma_digits_value_leading(c, front, hex);
        assert((seq![c] + ds).drop_last() =~= seq![c] + front);
        let r = radix(hex) as int;
        let p = pow(r, front.len());
        assert(pow(r, ds.len()) == r * p) by {
            reveal(pow);
        }
        let d = digit_value(c) as int;
        let v = digits_value(front, hex) as int;
        assert((d * p + v) * r == d * (r * p) + v * r) by (nonlinear_arith);
        assert((seq![c] + ds).last() == ds.last());
        assert(digits_value(seq![c] + ds, hex) == digits_value(seq![c] + front, hex) * radix(hex)
            + digit_value(ds.last()));
        assert(digits_value(ds, hex) == digits_value(front, hex) * radix(hex) + digit_value(
            ds.last(),
        ));
    }
}

/// A hexadecimal character reference whose digits name a non-zero Unicode
/// scalar value normalizes to exactly the character with that code.
pub proof fn lemma_hex_char_ref(ds: Seq<char>)
    requires
        ds.len() > 0,
        forall|i: int|
            0 <= i < ds.len() ==> ('0' <= #[trigger] ds[i] && ds[i] <= '9') || ('a' <= ds[i] && ds[i]
                <= 'f') || ('A' <= ds[i] && ds[i] <= 'F'),
        is_char_ref_value(digits_value(ds, true)),
    ensures
        normalized_attr_value(encode_utf8(seq!['&', '#', 'x'] + ds + seq![';'])) == Ok::<
            Seq<char>,
            AttrValueError,
        >(seq![digits_value(ds, true) as char]),
{
    let name = seq!['#', 'x'] + ds;
    let c = digits_value(ds, true) as char;
    assert forall|k: int| 0 <= k < ds.len() implies #[trigger] is_digit(ds[k], true) by {
        lemma_digits(ds[k]);
    }
    assert forall|k: int| 0 <= k < name.len() implies name[k] != ';' by {
        if k >= 2 {
            assert(name[k] == ds[k - 2]);
        }
    }
    assert(name.skip(1) =~= seq!['x'] + ds);
    assert((seq!['x'] + ds).skip(1) =~= ds);
    assert(resolve_reference(name) == Ok::<char, EscapeError>(c));
    lemma_normalize_one_reference(name, c);
    assert(seq!['&'] + name + seq![';'] =~= seq!['&', '#', 'x'] + ds + seq![';']);
    lemma_normalize_encoded(seq!['&', '#', 'x'] + ds + seq![';']);
}

/// A decimal character reference whose digits name a non-zero Unicode
/// scalar value normalizes to exactly the character with that code.
pub proof fn lemma_decimal_char_ref(ds: Seq<char>)
    requires
        ds.len() > 0,
        forall|i: int| 0 <= i < ds.len() ==> '0' <= #[trigger] ds[i] && ds[i] <= '9',
        is_char_ref_value(digits_value(ds, false)),
    ensures
        normalized_attr_value(encode_utf8(seq!['&', '#'] + ds + seq![';'])) == Ok::<
            Seq<char>,
            AttrValueError,
        >(seq![digits_value(ds, false) as char]),
{
    let name = seq!['#'] + ds;
    let c = digits_value(ds, false) as char;
    assert forall|k: int| 0 <= k < ds.len() implies #[trigger] is_digit(ds[k], false) by {
        lemma_digits(ds[k]);
    }
    assert forall|k: int| 0 <= k < name.len() implies name[k] != ';' by {
        if k >= 1 {
            assert(name[k] == ds[k - 1]);
        }
    }
    assert(name.skip(1) =~= ds);
    assert(ds[0] != 'x');
    assert(resolve_reference(name) == Ok::<char, EscapeError>(c));
    lemma_normalize_one_reference(name, c);
    assert(seq!['&'] + name + seq![';'] =~= seq!['&', '#'] + ds + seq![';']);
    lemma_normalize_encoded(seq!['&', '#'] + ds + seq![';']);
}

/// What plain text becomes: with no reference and no carriage return in
/// it, a tab or line feed becomes a space and every other character, of
/// any script, is kept as it is.
pub proof fn lemma_normalize_plain_text(s: Seq<char>)
    requires
        forall|i: int| 0 <= i < s.len() ==> #[trigger] s[i] != '&' && s[i] != '\r',
    ensures
        normalize_from(s, 0) == Ok::<Seq<char>, EscapeError>(
            s.map_values(|c: char| if c == '\t' || c == '\n' { ' ' } else { c }),
        ),
        normalized_attr_value(encode_utf8(s)) == Ok::<Seq<char>, AttrValueError>(
            s.map_values(|c: char| if c == '\t' || c == '\n' { ' ' } else { c }),
        ),
{
    let m = s.map_values(|c: char| if c == '\t' || c == '\n' { ' ' } else { c });
    lemma_normalize_plain_from(s, 0);
    assert(m.subrange(0, s.len() as int) =~= m);
    lemma_normalize_encoded(s);
}

proof fn lemma_normalize_plain_from(s: Seq<char>, i: int)
    requires
        0 <= i <= s.len(),
        forall|k: int| 0 <= k < s.len() ==> #[trigger] s[k] != '&' && s[k] != '\r',
    ensures
        normalize_from(s, i) == Ok::<Seq<char>, EscapeError>(
            s.map_values(|c: char| if c == '\t' || c == '\n' { ' ' } else { c }).subrange(
                i,
                s.len() as int,
            ),
        ),
    decreases s.len() - i,
{
    let m = s.map_values(|c: char| if c == '\t' || c == '\n' { ' ' } else { c });
    if i == s.len() {
        assert(m.subrange(i, s.len() as int) =~= Seq::<char>::empty());
    } else {
        lemma_normalize_plain_from(s, i + 1);
        assert(s[i] != '&' && s[i] != '\r');
        assert(seq![m[i]] + m.subrange(i + 1, s.len() as int) =~= m.subrange(i, s.len() as int));
    }
}

/// The position of the first `;` at or after `from`, if any.
fn find_semicolon_in(s: &Vec<char>, from: usize) -> (r: Option<usize>)
    requires
        from <= s.len(),
    ensures
        match r {
            Some(j) => find_semicolon(s@, from as int) == Some(j as int),
            None => find_semicolon(s@, from as int) is None,
        },
{
    let mut j = from;
    while j < s.len()
        invariant
            from <= j <= s.len(),
            find_semicolon(s@, from as int) == find_semicolon(s@, j as int),
        decreases s.len() - j,
    {
        if s[j] == ';' {
            return Some(j);
        }
        j = j + 1;
    }
    None
}

/// The value of a digit of the given kind, if `c` is one.
fn digit_of(c: char, hex: bool) -> (r: Option<u32>)
    ensures
        r is Some <==> is_digit(c, hex),
        r matches Some(d) ==> d as nat == digit_value(c) && d < radix(hex),
{
    if '0' <= c && c <= '9' {
        Some((c as u32) - ('0' as u32))
    } else if hex && 'a' <= c && c <= 'f' {
        Some((c as u32) - ('a' as u32) + 10)
    } else if hex && 'A' <= c && c <= 'F' {
        Some((c as u32) - ('A' as u32) + 10)
    } else {
        None
    }
}

/// A longer string of digits never writes a smaller number.
proof fn lemma_digits_value_prefix(ds: Seq<char>, hex: bool, k: int)
    requires
        0 <= k <= ds.len(),
    ensures
        digits_value(ds.take(k), hex) <= digits_value(ds, hex),
    decreases ds.len() - k,
{
    if k < ds.len() {
        lemma_digits_value_prefix(ds, hex, k + 1);
        assert(ds.take(k + 1).drop_last() =~= ds.take(k));
        let v = digits_value(ds.take(k), hex);
        assert(v * radix(hex) >= v) by (nonlinear_arith)
            requires
                radix(hex) >= 1,
        ;
    } else {
        assert(ds.take(k) =~= ds);
    }
}

/// The character named by the characters of `s` in `start..end`, the text
/// of a character reference between `&#` and `;`.
fn parse_char_ref(s: &Vec<char>, start: usize, end: usize) -> (r: Result<char, EscapeError>)
    requires
        start <= end <= s.len(),
    ensures
        r == char_ref(s@.subrange(start as int, end as int)),
{
    let ghost num = s@.subrange(start as int, end as int);
    let hex = start < end && s[start] == 'x';
    assert(hex == (num.len() > 0 && num[0] == 'x'));
    let first = if hex {
        start + 1
    } else {
        start
    };
    let ghost ds = s@.subrange(first as int, end as int);
    assert(ds =~= (if hex {
        num.skip(1)
    } else {
        num
    }));
    if first == end {
        return Err(EscapeError::InvalidCharRef);
    }
    let mut acc: u32 = 0;
    let mut k = first;
    while k < end
        invariant
            first <= k <= end <= s.len(),
            ds == s@.subrange(first as int, end as int),
            num == s@.subrange(start as int, end as int),
            hex == (num.len() > 0 && num[0] == 'x'),
            ds == (if hex {
                num.skip(1)
            } else {
                num
            }),
            first < end,
            acc as nat == digits_value(ds.take(k - first), hex),
            acc <= 0x10FFFF,
            all_digits(ds.take(k - first), hex),
        decreases end - k,
    {
        let d = match digit_of(s[k], hex) {
            Some(d) => d,
            None => {
                assert(!is_digit(ds[k - first], hex));
                return Err(EscapeError::InvalidCharRef);
            },
        };
        let ghost pre = ds.take(k - first);
        let ghost next = ds.take(k + 1 - first);
        assert(next.drop_last() =~= pre);
        assert(next.last() == s@[k as int]);
        let step = if hex {
            (acc as u64) * 16 + (d as u64)
        } else {
            (acc as u64) * 10 + (d as u64)
        };
        assert(step as nat == digits_value(next, hex));
        assert(all_digits(next, hex)) by {
            assert forall|i: int| 0 <= i < next.len() implies #[trigger] is_digit(next[i], hex) by {
                if i < pre.len() {
                    assert(next[i] == pre[i]);
                }
            }
        }
        if step > 0x10FFFF {
            proof {
                lemma_digits_value_prefix(ds, hex, k + 1 - first);
            }
            return Err(EscapeError::InvalidCharRef);
        }
        acc = step as u32;
        k = k + 1;
    }
    assert(ds.take(end - first) =~= ds);
    if acc == 0 {
        return Err(EscapeError::InvalidCharRef);
    }
    match char_from_u32(acc) {
        Some(c) => {
            proof {
                char_u32_cast(c, acc);
            }
            Ok(c)
        },
        None => Err(EscapeError::InvalidCharRef),
    }
}

/// The character that a predefined entity named by the characters of `s`
/// in `start..end` stands for.
fn predefined_entity_in(s: &Vec<char>, start: usize, end: usize) -> (r: Option<char>)
    requires
        start <= end <= s.len(),
    ensures
        r == predefined_entity(s@.subrange(start as int, end as int)),
{
    let ghost name = s@.subrange(start as int, end as int);
    let n = end - start;
    if n == 2 && s[start] == 'l' && s[start + 1] == 't' {
        assert(name =~= seq!['l', 't']);
        Some('<')
    } else if n == 2 && s[start] == 'g' && s[start + 1] == 't' {
        assert(name =~= seq!['g', 't']);
        Some('>')
    } else if n == 3 && s[start] == 'a' && s[start + 1] == 'm' && s[start + 2] == 'p' {
        assert(name =~= seq!['a', 'm', 'p']);
        Some('&')
    } else if n == 4 && s[start] == 'a' && s[start + 1] == 'p' && s[start + 2] == 'o' && s[start
        + 3] == 's' {
        assert(name =~= seq!['a', 'p', 'o', 's']);
        Some('\'')
    } else if n == 4 && s[start] == 'q' && s[start + 1] == 'u' && s[start + 2] == 'o' && s[start
        + 3] == 't' {
        assert(name =~= seq!['q', 'u', 'o', 't']);
        Some('"')
    } else {
        assert(name.len() == 2 ==> name[0] == s@[start as int] && name[1] == s@[start + 1]);
        assert(name.len() == 3 ==> name[0] == s@[start as int] && name[1] == s@[start + 1]
            && name[2] == s@[start + 2]);
        assert(name.len() == 4 ==> name[0] == s@[start as int] && name[1] == s@[start + 1]
            && name[2] == s@[start + 2] && name[3] == s@[start + 3]);
        None
    }
}

/// The character named by the characters of `s` in `start..end`, the text
/// of a reference between `&` and `;`.
fn resolve_reference_in(s: &Vec<char>, start: usize, end: usize) -> (r: Result<char, EscapeError>)
    requires
        start <= end <= s.len(),
    ensures
        r == resolve_reference(s@.subrange(start as int, end as int)),
{
    let ghost name = s@.subrange(start as int, end as int);
    if start < end && s[start] == '#' {
        assert(name.skip(1) =~= s@.subrange(start + 1, end as int));
        parse_char_ref(s, start + 1, end)
    } else {
        match predefined_entity_in(s, start, end) {
            Some(c) => Ok(c),
            None => Err(EscapeError::UnrecognizedEntity),
        }
    }
}

/// The normalization of a sequence of characters.
pub fn normalize_chars(s: &Vec<char>) -> (r: Result<Vec<char>, EscapeError>)
    ensures
        match r {
            Ok(out) => normalize_from(s@, 0) == Ok::<Seq<char>, EscapeError>(out@),
            Err(e) => normalize_from(s@, 0) == Err::<Seq<char>, EscapeError>(e),
        },
{
    let mut out: Vec<char> = Vec::new();
    let mut i: usize = 0;
    proof {
        match normalize_from(s@, 0) {
            Ok(t) => assert(out@ + t =~= t),
            Err(_) => {},
        }
    }
    while i < s.len()
        invariant
            i <= s.len(),
            normalize_from(s@, 0) == prepend(out@, normalize_from(s@, i as int)),
        decreases s.len() - i,
    {
        let c = s[i];
        let ghost before = out@;
        let next: usize;
        if c == '&' {
            proof {
                lemma_find_semicolon(s@, i + 1);
            }
            match find_semicolon_in(s, i + 1) {
                None => {
                    return Err(EscapeError::UnterminatedEntity);
                },
                Some(j) => match resolve_reference_in(s, i + 1, j) {
                    Ok(ch) => {
                        out.push(ch);
                        next = j + 1;
                    },
                    Err(e) => {
                        return Err(e);
                    },
                },
            }
        } else if c == '\r' && i + 1 < s.len() && s[i + 1] == '\n' {
            out.push(' ');
            next = i + 2;
        } else if c == '\t' || c == '\n' || c == '\r' {
            out.push(' ');
            next = i + 1;
        } else {
            out.push(c);
            next = i + 1;
        }
        assert(normalize_from(s@, i as int) == prepend(
            seq![out@.last()],
            normalize_from(s@, next as int),
        ));
        proof {
            match normalize_from(s@, next as int) {
                Ok(t) => {
                    assert(before + (seq![out@.last()] + t) =~= out@ + t);
                },
                Err(_) => {},
            }
        }
        i = next;
    }
    assert(normalize_from(s@, i as int) == Ok::<Seq<char>, EscapeError>(Seq::empty()));
    assert(out@ + Seq::<char>::empty() =~= out@);
    Ok(out)
}

/// The text that `{:?}` writes for an escape error: the variant's name.
pub open spec fn escape_error_name(e: EscapeError) -> Seq<char> {
    match e {
        EscapeError::UnterminatedEntity => "UnterminatedEntity"@,
        EscapeError::UnrecognizedEntity => "UnrecognizedEntity"@,
        EscapeError::InvalidCharRef => "InvalidCharRef"@,
    }
}

/// The text that `{:?}` writes for an attribute-value error.
pub open spec fn attr_value_error_text(e: AttrValueError) -> Seq<char> {
    match e {
        AttrValueError::NonDecodable => "NonDecodable"@,
        AttrValueError::Escape(inner) => "Escape("@ + escape_error_name(inner) + ")"@,
    }
}

impl EscapeError {
    /// The name of the error, as `{:?}` writes it.
    pub fn debug_name(&self) -> (r: &'static str)
        ensures
            r@ == escape_error_name(*self),
    {
        match self {
            EscapeError::UnterminatedEntity => "UnterminatedEntity",
            EscapeError::UnrecognizedEntity => "UnrecognizedEntity",
            EscapeError::InvalidCharRef => "InvalidCharRef",
        }
    }
}

impl AttrValueError {
    /// The error as `{:?}` writes it.
    pub fn debug_text(&self) -> (r: String)
        ensures
            r@ == attr_value_error_text(*self),
    {
        broadcast use vstd::string::to_string_from_display_ensures_for_str;

        match self {
            AttrValueError::NonDecodable => "NonDecodable".to_string(),
            AttrValueError::Escape(e) => {
                let mut t = "Escape(".to_string();
                t.append(e.debug_name());
                t.append(")");
                t
            },
        }
    }
}

impl Attribute {
    /// The value of the attribute after normalization: decoded from UTF-8,
    /// references expanded, line breaks and tabs turned into spaces.
    pub fn normalized_value(&self) -> (r: Result<String, AttrValueError>)
        ensures
            match r {
                Ok(v) => normalized_attr_value(self.value@) == Ok::<Seq<char>, AttrValueError>(v@),
                Err(e) => normalized_attr_value(self.value@) == Err::<Seq<char>, AttrValueError>(e),
            },
    {
        let text = match utf8_str(self.value.as_slice()) {
            Some(t) => t,
            None => {
                return Err(AttrValueError::NonDecodable);
            },
        };
        proof {
            encode_utf8_decode_utf8(text@);
        }
        let chars = chars_of(text);
        match normalize_chars(&chars) {
            Ok(out) => Ok(string_of(&out)),
            Err(e) => Err(AttrValueError::Escape(e)),
        }
    }
}

} // verus!
