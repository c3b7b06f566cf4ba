//! Property checks for two behaviours of the library: attribute-value
//! normalization resolves the five predefined XML entities, and the
//! `xs:list` character escaper writes the canonical reference for each
//! character it escapes.
//!
//! Each `property_*` function takes one generated input and answers
//! whether the input is outside the property's domain (`Discard`), or
//! inside it and the library behaves as the property demands (`Pass`),
//! or not (`Fail`, with a report).
use vstd::prelude::*;
use vstd::string::*;
use vstd::utf8::*;

use crate::attributes::{
    lemma_find_semicolon_at, normalize_from, normalized_attr_value, predefined_entity, prepend,
    resolve_reference, attr_value_error_text, Attribute, AttrValueError, EscapeError,
};
use crate::escape::{escape_char, escape_code, is_escapable};
use crate::text::{
    all_ascii, ascii_chars, debug_char, debug_char_text, debug_str, debug_text, lemma_ascii_utf8,
    push_char, utf8_str,
};

verus! {

/// The outcome of checking a property on one input.
#[derive(Debug, Clone, PartialEq, Eq)]
pub enum PropertyResult {
    Pass,
    Fail(String),
    Discard,
}

/// The bodies of the five predefined entity references, each with its `;`.
pub open spec fn lt_body() -> Seq<u8> {
    seq!['l' as u8, 't' as u8, ';' as u8]
}

pub open spec fn gt_body() -> Seq<u8> {
    seq!['g' as u8, 't' as u8, ';' as u8]
}

pub open spec fn amp_body() -> Seq<u8> {
    seq!['a' as u8, 'm' as u8, 'p' as u8, ';' as u8]
}

pub open spec fn apos_body() -> Seq<u8> {
    seq!['a' as u8, 'p' as u8, 'o' as u8, 's' as u8, ';' as u8]
}

pub open spec fn quot_body() -> Seq<u8> {
    seq!['q' as u8, 'u' as u8, 'o' as u8, 't' as u8, ';' as u8]
}

/// `pat` occurs in `s` starting at position `i`.
pub open spec fn occurs_at(s: Seq<u8>, i: int, pat: Seq<u8>) -> bool {
    0 <= i && i + pat.len() <= s.len() && s.subrange(i, i + pat.len()) == pat
}

/// The length of the predefined entity body at position `i`, or 0 when
/// none starts there.
pub open spec fn entity_body_len(s: Seq<u8>, i: int) -> int {
    if occurs_at(s, i, lt_body()) {
        3
    } else if occurs_at(s, i, gt_body()) {
        3
    } else if occurs_at(s, i, amp_body()) {
        4
    } else if occurs_at(s, i, apos_body()) {
        5
    } else if occurs_at(s, i, quot_body()) {
        5
    } else {
        0
    }
}

pub open spec fn is_ascii_alphanumeric(b: u8) -> bool {
    ||| ('0' as u8 <= b && b <= '9' as u8)
    ||| ('a' as u8 <= b && b <= 'z' as u8)
    ||| ('A' as u8 <= b && b <= 'Z' as u8)
}

/// From position `i` on, `s` is a run of ASCII letters and digits and of
/// references to the five predefined entities.
pub open spec fn entity_tokens_from(s: Seq<u8>, i: int) -> bool
    decreases s.len() - i,
{
    if i < 0 || i >= s.len() {
        true
    } else if s[i] == '&' as u8 {
        entity_body_len(s, i + 1) > 0 && entity_tokens_from(s, i + 1 + entity_body_len(s, i + 1))
    } else if is_ascii_alphanumeric(s[i]) {
        entity_tokens_from(s, i + 1)
    } else {
        false
    }
}

/// The domain of the entity property: valid UTF-8 made only of ASCII
/// letters, digits and predefined entity references.
pub open spec fn is_predefined_entity_text(s: Seq<u8>) -> bool {
    valid_utf8(s) && entity_tokens_from(s, 0)
}

/// The expected expansion of `s` from position `i` on: each predefined
/// entity reference becomes its character, each other byte the character
/// with that code.
pub open spec fn predef_unescape_from(s: Seq<u8>, i: int) -> Seq<char>
    decreases s.len() - i,
{
    if i < 0 || i >= s.len() {
        Seq::empty()
    } else if s[i] == '&' as u8 && occurs_at(s, i + 1, lt_body()) {
        seq!['<'] + predef_unescape_from(s, i + 4)
    } else if s[i] == '&' as u8 && occurs_at(s, i + 1, gt_body()) {
        seq!['>'] + predef_unescape_from(s, i + 4)
    } else if s[i] == '&' as u8 && occurs_at(s, i + 1, amp_body()) {
        seq!['&'] + predef_unescape_from(s, i + 5)
    } else if s[i] == '&' as u8 && occurs_at(s, i + 1, apos_body()) {
        seq!['\''] + predef_unescape_from(s, i + 6)
    } else if s[i] == '&' as u8 && occurs_at(s, i + 1, quot_body()) {
        seq!['"'] + predef_unescape_from(s, i + 6)
    } else {
        seq![s[i] as char] + predef_unescape_from(s, i + 1)
    }
}

/// Whether `pat` occurs in `s` starting at position `i`.
fn occurs_in_at(s: &[u8], i: usize, pat: &[u8]) -> (r: bool)
    requires
        i <= s.len(),
    ensures
        r == occurs_at(s@, i as int, pat@),
{
    if pat.len() > s.len() - i {
        return false;
    }
    let mut k: usize = 0;
    while k < pat.len()
        invariant
            i + pat.len() <= s.len(),
            k <= pat.len(),
            s@.subrange(i as int, i + k) == pat@.subrange(0, k as int),
        decreases pat.len() - k,
    {
        if s[i + k] != pat[k] {
            assert(s@.subrange(i as int, i + pat.len())[k as int] != pat@[k as int]);
            return false;
        }
        k = k + 1;
        assert(s@.subrange(i as int, i + k) =~= pat@.subrange(0, k as int));
    }
    assert(pat@.subrange(0, pat.len() as int) =~= pat@);
    true
}

/// Whether a predefined entity body starts at position `i`, and its length.
fn entity_body_len_at(s: &[u8], i: usize) -> (r: usize)
    requires
        i <= s.len(),
    ensures
        r == entity_body_len(s@, i as int),
{
    let lt: [u8; 3] = ['l' as u8, 't' as u8, ';' as u8];
    let gt: [u8; 3] = ['g' as u8, 't' as u8, ';' as u8];
    let amp: [u8; 4] = ['a' as u8, 'm' as u8, 'p' as u8, ';' as u8];
    let apos: [u8; 5] = ['a' as u8, 'p' as u8, 'o' as u8, 's' as u8, ';' as u8];
    let quot: [u8; 5] = ['q' as u8, 'u' as u8, 'o' as u8, 't' as u8, ';' as u8];
    assert(lt@ =~= lt_body());
    assert(gt@ =~= gt_body());
    assert(amp@ =~= amp_body());
    assert(apos@ =~= apos_body());
    assert(quot@ =~= quot_body());
    if occurs_in_at(s, i, &lt) {
        3
    } else if occurs_in_at(s, i, &gt) {
        3
    } else if occurs_in_at(s, i, &amp) {
        4
    } else if occurs_in_at(s, i, &apos) {
        5
    } else if occurs_in_at(s, i, &quot) {
        5
    } else {
        0
    }
}

/// Whether `input` lies in the domain of the entity property: valid UTF-8
/// made only of ASCII letters, digits and references to the five
/// predefined entities. Anything else, whitespace included, is outside.
fn is_predefined_entity_input(input: &[u8]) -> (r: bool)
    ensures
        r == is_predefined_entity_text(input@),
{
    if utf8_str(input).is_none() {
        return false;
    }
    let mut i: usize = 0;
    while i < input.len()
        invariant
            i <= input.len(),
            entity_tokens_from(input@, 0) == entity_tokens_from(input@, i as int),
            valid_utf8(input@),
        decreases input.len() - i,
    {
        let b = input[i];
        if b == '&' as u8 {
            let k = entity_body_len_at(input, i + 1);
            if k == 0 {
                return false;
            }
            i = i + 1 + k;
        } else if ('0' as u8 <= b && b <= '9' as u8) || ('a' as u8 <= b && b <= 'z' as u8) || (
        'A' as u8 <= b && b <= 'Z' as u8) {
            i = i + 1;
        } else {
            return false;
        }
    }
    true
}

/// The expected expansion of `input`: each predefined entity reference
/// becomes its character, and each other byte the character with that
/// code.
fn expected_predef_unescape(input: &[u8]) -> (r: String)
    ensures
        r@ == predef_unescape_from(input@, 0),
{
    let mut out = String::new();
    let mut i: usize = 0;
    assert(out@ + predef_unescape_from(input@, 0) =~= predef_unescape_from(input@, 0));
    while i < input.len()
        invariant
            i <= input.len(),
            out@ + predef_unescape_from(input@, i as int) == predef_unescape_from(input@, 0),
        decreases input.len() - i,
    {
        let ghost before = out@;
        let b = input[i];
        let lt: [u8; 3] = ['l' as u8, 't' as u8, ';' as u8];
        let gt: [u8; 3] = ['g' as u8, 't' as u8, ';' as u8];
        let amp: [u8; 4] = ['a' as u8, 'm' as u8, 'p' as u8, ';' as u8];
        let apos: [u8; 5] = ['a' as u8, 'p' as u8, 'o' as u8, 's' as u8, ';' as u8];
        let quot: [u8; 5] = ['q' as u8, 'u' as u8, 'o' as u8, 't' as u8, ';' as u8];
        assert(lt@ =~= lt_body());
        assert(gt@ =~= gt_body());
        assert(amp@ =~= amp_body());
        assert(apos@ =~= apos_body());
        assert(quot@ =~= quot_body());
        let next: usize;
        if b == '&' as u8 && occurs_in_at(input, i + 1, &lt) {
            push_char(&mut out, '<');
            next = i + 4;
        } else if b == '&' as u8 && occurs_in_at(input, i + 1, &gt) {
            push_char(&mut out, '>');
            next = i + 4;
        } else if b == '&' as u8 && occurs_in_at(input, i + 1, &amp) {
            push_char(&mut out, '&');
            next = i + 5;
        } else if b == '&' as u8 && occurs_in_at(input, i + 1, &apos) {
            push_char(&mut out, '\'');
            next = i + 6;
        } else if b == '&' as u8 && occurs_in_at(input, i + 1, &quot) {
            push_char(&mut out, '"');
            next = i + 6;
        } else {
            push_char(&mut out, b as char);
            next = i + 1;
        }
        assert(predef_unescape_from(input@, i as int) == seq![out@.last()] + predef_unescape_from(
            input@,
            next as int,
        ));
        assert(before + (seq![out@.last()] + predef_unescape_from(input@, next as int))
            =~= out@ + predef_unescape_from(input@, next as int));
        i = next;
    }
    assert(out@ + Seq::<char>::empty() =~= out@);
    out
}

/// Text in the entity property's domain is ASCII.
proof fn lemma_entity_tokens_ascii(s: Seq<u8>, i: int)
    requires
        0 <= i,
        entity_tokens_from(s, i),
    ensures
        forall|j: int| i <= j < s.len() ==> #[trigger] s[j] < 0x80,
    decreases s.len() - i,
{
    if i < s.len() {
        if s[i] == '&' as u8 {
            let k = entity_body_len(s, i + 1);
            lemma_entity_tokens_ascii(s, i + 1 + k);
            let body = if occurs_at(s, i + 1, lt_body()) {
                lt_body()
            } else if occurs_at(s, i + 1, gt_body()) {
                gt_body()
            } else if occurs_at(s, i + 1, amp_body()) {
                amp_body()
            } else if occurs_at(s, i + 1, apos_body()) {
                apos_body()
            } else {
                quot_body()
            };
            assert(occurs_at(s, i + 1, body) && body.len() == k);
            assert forall|j: int| i <= j < s.len() implies #[trigger] s[j] < 0x80 by {
                if i + 1 <= j < i + 1 + k {
                    assert(s[j] == s.subrange(i + 1, i + 1 + k)[j - i - 1]);
                }
            }
        } else {
            lemma_entity_tokens_ascii(s, i + 1);
        }
    }
}

/// A predefined entity reference at position `i` of ASCII text normalizes
/// to its character, and normalization goes on right after its `;`.
proof fn lemma_normalize_entity_reference(
    s: Seq<u8>,
    i: int,
    body: Seq<u8>,
    name: Seq<char>,
    ch: char,
)
    requires
        all_ascii(s),
        0 <= i < s.len(),
        s[i] == '&' as u8,
        occurs_at(s, i + 1, body),
        body.len() == name.len() + 1,
        body[name.len() as int] == ';' as u8,
        forall|m: int| 0 <= m < name.len() ==> #[trigger] name[m] == body[m] as char && name[m]
            != ';',
        name.len() > 0 && name[0] != '#',
        predefined_entity(name) == Some(ch),
    ensures
        normalize_from(ascii_chars(s), i) == prepend(
            seq![ch],
            normalize_from(ascii_chars(s), i + 1 + body.len() as int),
        ),
{
    let c = ascii_chars(s);
    let j = i + 1 + name.len();
    assert forall|m: int| 0 <= m < body.len() implies #[trigger] c[i + 1 + m] == body[m] as char by {
        assert(s[i + 1 + m] == s.subrange(i + 1, i + 1 + body.len() as int)[m]);
    }
    assert(c[j] == body[name.len() as int] as char);
    assert(c[j] == ';');
    assert forall|k: int| i + 1 <= k < j implies c[k] != ';' by {
        assert(c[i + 1 + (k - i - 1)] == body[k - i - 1] as char);
        assert(name[k - i - 1] == body[k - i - 1] as char);
    }
    lemma_find_semicolon_at(c, i + 1, j);
    assert(c.subrange(i + 1, j) =~= name) by {
        assert forall|m: int| 0 <= m < name.len() implies c.subrange(i + 1, j)[m] == name[m] by {
            assert(c[i + 1 + m] == body[m] as char);
        }
    }
    assert(c[i] == '&');
    assert(resolve_reference(c.subrange(i + 1, j)) == Ok::<char, EscapeError>(ch));
}

/// On ASCII text in the entity property's domain, normalization from
/// position `i` succeeds with the expected expansion.
proof fn lemma_entity_tokens_normalize(s: Seq<u8>, i: int)
    requires
        all_ascii(s),
        0 <= i,
        entity_tokens_from(s, i),
    ensures
        normalize_from(ascii_chars(s), i) == Ok::<Seq<char>, EscapeError>(
            predef_unescape_from(s, i),
        ),
    decreases s.len() - i,
{
    let c = ascii_chars(s);
    if i < s.len() {
        if s[i] == '&' as u8 {
            let k = entity_body_len(s, i + 1);
            lemma_entity_tokens_normalize(s, i + 1 + k);
            if occurs_at(s, i + 1, lt_body()) {
                lemma_normalize_entity_reference(s, i, lt_body(), seq!['l', 't'], '<');
            } else if occurs_at(s, i + 1, gt_body()) {
                lemma_normalize_entity_reference(s, i, gt_body(), seq!['g', 't'], '>');
            } else if occurs_at(s, i + 1, amp_body()) {
                lemma_normalize_entity_reference(s, i, amp_body(), seq!['a', 'm', 'p'], '&');
            } else if occurs_at(s, i + 1, apos_body()) {
                lemma_normalize_entity_reference(
                    s,
                    i,
                    apos_body(),
                    seq!['a', 'p', 'o', 's'],
                    '\'',
                );
            } else {
                lemma_normalize_entity_reference(
                    s,
                    i,
                    quot_body(),
                    seq!['q', 'u', 'o', 't'],
                    '"',
                );
            }
        } else {
            lemma_entity_tokens_normalize(s, i + 1);
            assert(c[i] == s[i] as char);
        }
    }
}

/// Normalizing an attribute value in the entity property's domain resolves
/// every predefined entity reference to its character and keeps every
/// other byte: the result is the expected expansion.
pub proof fn lemma_normalize_predefined_entities(s: Seq<u8>)
    requires
        is_predefined_entity_text(s),
    ensures
        normalized_attr_value(s) == Ok::<Seq<char>, AttrValueError>(predef_unescape_from(s, 0)),
{
    lemma_entity_tokens_ascii(s, 0);
    lemma_ascii_utf8(s);
    lemma_entity_tokens_normalize(s, 0);
}


/// One of the bodies of the five predefined entity references.
pub open spec fn is_entity_body(k: Seq<u8>) -> bool {
    k == lt_body() || k == gt_body() || k == amp_body() || k == apos_body() || k == quot_body()
}

/// Where an entity body lies wholly inside `a`, appending `b` changes
/// none of the matches of the five bodies at that position: the five
/// bodies already differ in their first two bytes.
proof fn lemma_occurs_extend(a: Seq<u8>, b: Seq<u8>, i: int, k: Seq<u8>)
    requires
        occurs_at(a, i, k),
        is_entity_body(k),
    ensures
        occurs_at(a + b, i, lt_body()) == occurs_at(a, i, lt_body()),
        occurs_at(a + b, i, gt_body()) == occurs_at(a, i, gt_body()),
        occurs_at(a + b, i, amp_body()) == occurs_at(a, i, amp_body()),
        occurs_at(a + b, i, apos_body()) == occurs_at(a, i, apos_body()),
        occurs_at(a + b, i, quot_body()) == occurs_at(a, i, quot_body()),
{
    let s = a + b;
    assert(a[i] == a.subrange(i, i + k.len())[0]);
    assert(a[i + 1] == a.subrange(i, i + k.len())[1]);
    assert(s[i] == a[i] && s[i + 1] == a[i + 1]);
    assert(a[i] == k[0] && a[i + 1] == k[1]);
    assert forall|p: Seq<u8>| #[trigger] is_entity_body(p) implies occurs_at(s, i, p) == occurs_at(
        a,
        i,
        p,
    ) by {
        if p == k {
            assert(s.subrange(i, i + k.len()) =~= a.subrange(i, i + k.len()));
        } else {
            if occurs_at(s, i, p) {
                assert(s[i] == s.subrange(i, i + p.len())[0]);
                assert(s[i + 1] == s.subrange(i, i + p.len())[1]);
            }
            if occurs_at(a, i, p) {
                assert(a[i] == a.subrange(i, i + p.len())[0]);
                assert(a[i + 1] == a.subrange(i, i + p.len())[1]);
            }
        }
    }
    assert(is_entity_body(lt_body()));
    assert(is_entity_body(gt_body()));
    assert(is_entity_body(amp_body()));
    assert(is_entity_body(apos_body()));
    assert(is_entity_body(quot_body()));
}

/// A pattern occurs in `a + b` at position `a.len() + j` exactly where it
/// occurs in `b` at position `j`.
proof fn lemma_occurs_shift(a: Seq<u8>, b: Seq<u8>, j: int, p: Seq<u8>)
    requires
        0 <= j,
    ensures
        occurs_at(a + b, a.len() + j, p) == occurs_at(b, j, p),
{
    if j + p.len() <= b.len() {
        assert((a + b).subrange(a.len() + j, a.len() + j + p.len()) =~= b.subrange(j, j + p.len()));
    }
}

/// Past the end of `a`, the token walk and the expansion of `a + b` are
/// those of `b`.
proof fn lemma_shift(a: Seq<u8>, b: Seq<u8>, j: int)
    requires
        0 <= j,
    ensures
        entity_tokens_from(a + b, a.len() + j) == entity_tokens_from(b, j),
        predef_unescape_from(a + b, a.len() + j) == predef_unescape_from(b, j),
    decreases b.len() - j,
{
    let s = a + b;
    let i = a.len() + j;
    if j < b.len() {
        assert(s[i] == b[j]);
        lemma_occurs_shift(a, b, j + 1, lt_body());
        lemma_occurs_shift(a, b, j + 1, gt_body());
        lemma_occurs_shift(a, b, j + 1, amp_body());
        lemma_occurs_shift(a, b, j + 1, apos_body());
        lemma_occurs_shift(a, b, j + 1, quot_body());
        assert(entity_body_len(s, i + 1) == entity_body_len(b, j + 1));
        lemma_shift(a, b, j + 1);
        if entity_body_len(b, j + 1) > 0 {
            lemma_shift(a, b, j + 1 + entity_body_len(b, j + 1));
        }
        if b[j] == '&' as u8 {
            if j + 4 <= b.len() {
                lemma_shift(a, b, j + 4);
            }
            if j + 5 <= b.len() {
                lemma_shift(a, b, j + 5);
            }
            if j + 6 <= b.len() {
                lemma_shift(a, b, j + 6);
            }
        }
    }
}

/// The entity body that starts at position `i`, where one does.
pub open spec fn entity_body_at(s: Seq<u8>, i: int) -> Seq<u8> {
    if occurs_at(s, i, lt_body()) {
        lt_body()
    } else if occurs_at(s, i, gt_body()) {
        gt_body()
    } else if occurs_at(s, i, amp_body()) {
        amp_body()
    } else if occurs_at(s, i, apos_body()) {
        apos_body()
    } else {
        quot_body()
    }
}

/// From a position of `a` where its token walk succeeds, the walk of
/// `a + b` succeeds when that of `b` does, and the expansion of `a + b` is
/// the expansion of the rest of `a` followed by that of `b`.
proof fn lemma_concat_from(a: Seq<u8>, b: Seq<u8>, i: int)
    requires
        0 <= i <= a.len(),
        entity_tokens_from(a, i),
    ensures
        entity_tokens_from(b, 0) ==> entity_tokens_from(a + b, i),
        predef_unescape_from(a + b, i) == predef_unescape_from(a, i) + predef_unescape_from(b, 0),
    decreases a.len() - i,
{
    let s = a + b;
    if i == a.len() {
        lemma_shift(a, b, 0);
        assert(predef_unescape_from(a, i) =~= Seq::<char>::empty());
        assert(predef_unescape_from(a, i) + predef_unescape_from(b, 0) =~= predef_unescape_from(
            b,
            0,
        ));
    } else {
        assert(s[i] == a[i]);
        if a[i] == '&' as u8 {
            let k = entity_body_at(a, i + 1);
            assert(occurs_at(a, i + 1, k));
            lemma_occurs_extend(a, b, i + 1, k);
            assert(entity_body_len(s, i + 1) == entity_body_len(a, i + 1));
            let next = i + 1 + entity_body_len(a, i + 1);
            lemma_concat_from(a, b, next);
            assert(next == i + 1 + k.len());
        } else {
            lemma_concat_from(a, b, i + 1);
        }
    }
}

/// Two texts of the entity property's domain, one after the other, are
/// again a text of the domain.
pub proof fn lemma_predefined_entity_text_concat(a: Seq<u8>, b: Seq<u8>)
    requires
        is_predefined_entity_text(a),
        is_predefined_entity_text(b),
    ensures
        is_predefined_entity_text(a + b),
{
    valid_utf8_concat(a, b);
    lemma_concat_from(a, b, 0);
}

/// After a text of the entity property's domain, the expansion of any text
/// goes on independently: the expansion of `a + b` is that of `a` followed
/// by that of `b`.
pub proof fn lemma_predef_unescape_concat(a: Seq<u8>, b: Seq<u8>)
    requires
        is_predefined_entity_text(a),
    ensures
        predef_unescape_from(a + b, 0) == predef_unescape_from(a, 0) + predef_unescape_from(b, 0),
{
    lemma_concat_from(a, b, 0);
}

/// The five bytes that XML markup reserves.
pub open spec fn is_markup_byte(b: u8) -> bool {
    ||| b == '<' as u8
    ||| b == '>' as u8
    ||| b == '&' as u8
    ||| b == '\'' as u8
    ||| b == '"' as u8
}

/// A letter or digit stays as it is; any other byte becomes the UTF-8
/// bytes of its escape (`escape_char_to_string(b).into_bytes()`).
pub open spec fn escaped_piece(b: u8) -> Seq<u8> {
    if is_ascii_alphanumeric(b) {
        seq![b]
    } else {
        encode_utf8(escape_code(b as char))
    }
}

/// Every byte of `s` replaced by its escaped piece.
pub open spec fn escape_markup(s: Seq<u8>) -> Seq<u8>
    decreases s.len(),
{
    if s.len() == 0 {
        Seq::empty()
    } else {
        escape_markup(s.drop_last()) + escaped_piece(s.last())
    }
}

/// The escaped piece of a letter, a digit or a markup byte is a text of
/// the entity property's domain that expands back to that byte's
/// character.
proof fn lemma_escaped_piece(b: u8)
    requires
        is_ascii_alphanumeric(b) || is_markup_byte(b),
    ensures
        is_predefined_entity_text(escaped_piece(b)),
        predef_unescape_from(escaped_piece(b), 0) == seq![b as char],
{
    let p = escaped_piece(b);
    if is_ascii_alphanumeric(b) {
        assert(all_ascii(p));
        lemma_ascii_utf8(p);
        assert(predef_unescape_from(p, 1) =~= Seq::<char>::empty());
        assert(seq![b as char] + Seq::<char>::empty() =~= seq![b as char]);
        assert(entity_tokens_from(p, 1));
        assert(entity_tokens_from(p, 0));
    } else {
        let c = b as char;
        let e = escape_code(c);
        assert(is_ascii_chars(e));
        is_ascii_chars_encode_utf8(e);
        let body = if b == '<' as u8 {
            lt_body()
        } else if b == '>' as u8 {
            gt_body()
        } else if b == '&' as u8 {
            amp_body()
        } else if b == '\'' as u8 {
            apos_body()
        } else {
            quot_body()
        };
        assert(p =~= seq!['&' as u8] + body);
        assert(p.subrange(1, 1 + body.len() as int) =~= body);
        assert(all_ascii(p));
        lemma_ascii_utf8(p);
        assert(entity_tokens_from(p, 1 + body.len() as int));
        assert(predef_unescape_from(p, 1 + body.len() as int) =~= Seq::<char>::empty());
        if b == '<' as u8 {
            assert(predef_unescape_from(p, 0) =~= seq!['<']);
            assert(entity_body_len(p, 1) == 3);
        } else if b == '>' as u8 {
            assert(!occurs_at(p, 1, lt_body()));
            assert(predef_unescape_from(p, 0) =~= seq!['>']);
            assert(entity_body_len(p, 1) == 3);
        } else if b == '&' as u8 {
            assert(!occurs_at(p, 1, lt_body()));
            assert(!occurs_at(p, 1, gt_body()));
            assert(predef_unescape_from(p, 0) =~= seq!['&']);
            assert(entity_body_len(p, 1) == 4);
        } else if b == '\'' as u8 {
            assert(!occurs_at(p, 1, lt_body()));
            assert(!occurs_at(p, 1, gt_body()));
            assert(!occurs_at(p, 1, amp_body()));
            assert(predef_unescape_from(p, 0) =~= seq!['\'']);
            assert(entity_body_len(p, 1) == 5);
        } else {
            assert(!occurs_at(p, 1, lt_body()));
            assert(!occurs_at(p, 1, gt_body()));
            assert(!occurs_at(p, 1, amp_body()));
            assert(!occurs_at(p, 1, apos_body()));
            assert(predef_unescape_from(p, 0) =~= seq!['"']);
            assert(entity_body_len(p, 1) == 5);
        }
        assert(entity_tokens_from(p, 0));
    }
}

/// Escaping the markup bytes of a text of letters, digits and markup
/// bytes gives a text of the entity property's domain, and expanding it
/// gives back the text: the entity expansion undoes the escaper.
pub proof fn lemma_escape_markup_then_expand(s: Seq<u8>)
    requires
        forall|i: int| 0 <= i < s.len() ==> is_ascii_alphanumeric(#[trigger] s[i]) || is_markup_byte(
            s[i],
        ),
    ensures
        is_predefined_entity_text(escape_markup(s)),
        valid_utf8(s),
        predef_unescape_from(escape_markup(s), 0) == decode_utf8(s),
    decreases s.len(),
{
    assert(all_ascii(s)) by {
        assert forall|i: int| 0 <= i < s.len() implies #[trigger] s[i] < 0x80 by {
            assert(is_ascii_alphanumeric(s[i]) || is_markup_byte(s[i]));
        }
    }
    lemma_ascii_utf8(s);
    if s.len() == 0 {
        assert(escape_markup(s) =~= Seq::<u8>::empty());
        assert(all_ascii(escape_markup(s)));
        lemma_ascii_utf8(escape_markup(s));
        assert(ascii_chars(s) =~= Seq::<char>::empty());
    } else {
        let front = s.drop_last();
        let last = s.last();
        assert forall|i: int| 0 <= i < front.len() implies is_ascii_alphanumeric(#[trigger] front[i])
            || is_markup_byte(front[i]) by {
            assert(front[i] == s[i]);
        }
        lemma_escape_markup_then_expand(front);
        lemma_ascii_utf8(front);
        assert(is_ascii_alphanumeric(s[s.len() - 1]) || is_markup_byte(s[s.len() - 1]));
        lemma_escaped_piece(last);
        lemma_predefined_entity_text_concat(escape_markup(front), escaped_piece(last));
        lemma_predef_unescape_concat(escape_markup(front), escaped_piece(last));
        assert(ascii_chars(s) =~= ascii_chars(front) + seq![last as char]);
    }
}

/// The byte at position `i` lies inside a reference `&` + body to one of
/// the five predefined entities.
#[verifier::opaque]
pub open spec fn inside_entity_reference(s: Seq<u8>, i: int) -> bool {
    exists|j: int, k: Seq<u8>|
        #![trigger occurs_at(s, j + 1, k)]
        j <= i < j + 1 + k.len() && s[j] == '&' as u8 && is_entity_body(k) && occurs_at(s, j + 1, k)
}

/// The byte at position `i` is an ASCII letter or digit, or lies inside a
/// reference to a predefined entity.
pub open spec fn letter_digit_or_in_reference(s: Seq<u8>, i: int) -> bool {
    ||| ('0' as u8 <= s[i] && s[i] <= '9' as u8)
    ||| ('a' as u8 <= s[i] && s[i] <= 'z' as u8)
    ||| ('A' as u8 <= s[i] && s[i] <= 'Z' as u8)
    ||| inside_entity_reference(s, i)
}

/// The byte at position `i` is an ASCII letter or digit, `&` or `;`.
pub open spec fn letter_digit_ampersand_or_semicolon(s: Seq<u8>, i: int) -> bool {
    ||| ('0' as u8 <= s[i] && s[i] <= '9' as u8)
    ||| ('a' as u8 <= s[i] && s[i] <= 'z' as u8)
    ||| ('A' as u8 <= s[i] && s[i] <= 'Z' as u8)
    ||| s[i] == '&' as u8
    ||| s[i] == ';' as u8
}

proof fn lemma_domain_bytes_from(s: Seq<u8>, i0: int)
    requires
        0 <= i0,
        entity_tokens_from(s, i0),
    ensures
        forall|i: int| i0 <= i < s.len() ==> #[trigger] letter_digit_or_in_reference(s, i),
    decreases s.len() - i0,
{
    if i0 < s.len() {
        if s[i0] == '&' as u8 {
            let k = entity_body_at(s, i0 + 1);
            assert(occurs_at(s, i0 + 1, k) && is_entity_body(k));
            assert(k.len() == entity_body_len(s, i0 + 1));
            lemma_domain_bytes_from(s, i0 + 1 + k.len());
            assert forall|i: int| i0 <= i < i0 + 1 + k.len() implies #[trigger] letter_digit_or_in_reference(
                s,
                i,
            ) by {
                reveal(inside_entity_reference);
                assert(occurs_at(s, i0 + 1, k));
            }
        } else {
            lemma_domain_bytes_from(s, i0 + 1);
            assert(letter_digit_or_in_reference(s, i0));
        }
    }
}

/// Every byte of a text in the entity property's domain is an ASCII letter
/// or digit, or lies inside a reference to a predefined entity; in
/// particular every byte is a letter, a digit, `&` or `;`.
pub proof fn lemma_domain_bytes(s: Seq<u8>)
    requires
        is_predefined_entity_text(s),
    ensures
        forall|i: int| 0 <= i < s.len() ==> #[trigger] letter_digit_or_in_reference(s, i),
        forall|i: int| 0 <= i < s.len() ==> #[trigger] letter_digit_ampersand_or_semicolon(s, i),
{
    lemma_domain_bytes_from(s, 0);
    assert forall|i: int| 0 <= i < s.len() implies #[trigger] letter_digit_ampersand_or_semicolon(
        s,
        i,
    ) by {
        assert(letter_digit_or_in_reference(s, i));
        if inside_entity_reference(s, i) {
            reveal(inside_entity_reference);
            let (j, k) = choose|j: int, k: Seq<u8>|
                #![trigger occurs_at(s, j + 1, k)]
                j <= i < j + 1 + k.len() && s[j] == '&' as u8 && is_entity_body(k) && occurs_at(
                    s,
                    j + 1,
                    k,
                );
            if i > j {
                assert(s[i] == s.subrange(j + 1, j + 1 + k.len())[i - j - 1]);
            }
        }
    }
}

/// The one-character string of an ASCII byte, decoded as UTF-8.
fn ascii_byte_string(b: u8) -> (r: String)
    requires
        b < 0x80,
    ensures
        r@ == seq![b as char],
        encode_utf8(r@) == seq![b],
        is_char_boundary(encode_utf8(r@), 0),
{
    broadcast use vstd::string::to_string_from_display_ensures_for_str;

    let bytes: [u8; 1] = [b];
    proof {
        assert(bytes@ =~= seq![b]);
        assert(all_ascii(bytes@));
        lemma_ascii_utf8(bytes@);
        assert(ascii_chars(bytes@) =~= seq![b as char]);
    }
    let text = utf8_str(&bytes).unwrap();
    proof {
        encode_utf8_decode_utf8(text@);
        decode_utf8_encode_utf8(bytes@);
        is_char_boundary_start_end_of_seq(bytes@);
    }
    text.to_string()
}

/// The report for an input whose normalization failed.
fn normalization_failure_report(input: &[u8], e: AttrValueError) -> (r: String)
    requires
        valid_utf8(input@),
    ensures
        r@ == "normalized_value failed on "@ + debug_text(decode_utf8(input@)) + ": "@
            + attr_value_error_text(e),
{
    broadcast use vstd::string::to_string_from_display_ensures_for_str;

    let text = utf8_str(input).unwrap();
    proof {
        encode_utf8_decode_utf8(text@);
    }
    let mut m = "normalized_value failed on ".to_string();
    m.append(debug_str(text).as_str());
    m.append(": ");
    m.append(e.debug_text().as_str());
    m
}

/// The report for an input whose normalization differs from the expected
/// expansion.
fn unescape_mismatch_report(input: &[u8], expected: &String, got: &String) -> (r: String)
    requires
        valid_utf8(input@),
    ensures
        r@ == "input="@ + debug_text(decode_utf8(input@)) + " expected="@ + debug_text(expected@)
            + " got="@ + debug_text(got@),
{
    broadcast use vstd::string::to_string_from_display_ensures_for_str;

    let text = utf8_str(input).unwrap();
    proof {
        encode_utf8_decode_utf8(text@);
    }
    let mut m = "input=".to_string();
    m.append(debug_str(text).as_str());
    m.append(" expected=");
    m.append(debug_str(expected.as_str()).as_str());
    m.append(" got=");
    m.append(debug_str(got.as_str()).as_str());
    m
}

/// `Attribute::normalized_value` resolves the five XML predefined entities
/// (`&lt;`, `&gt;`, `&amp;`, `&apos;`, `&quot;`).
///
/// Inputs outside the domain (see `is_predefined_entity_text`) are
/// discarded; on every input inside it the property holds.
pub fn property_unescape_predef_entities(input: Vec<u8>) -> (r: PropertyResult)
    ensures
        is_predefined_entity_text(input@) ==> r == PropertyResult::Pass,
        !is_predefined_entity_text(input@) ==> r == PropertyResult::Discard,
{
    if !is_predefined_entity_input(&input) {
        return PropertyResult::Discard;
    }
    let attr = Attribute { key: vec!['x' as u8], value: input.clone() };
    assert(attr.value@ =~= input@);
    proof {
        lemma_normalize_predefined_entities(input@);
    }
    let got = match attr.normalized_value() {
        Ok(v) => v,
        Err(e) => {
            return PropertyResult::Fail(normalization_failure_report(&input, e));
        },
    };
    let expected = expected_predef_unescape(&input);
    if got == expected {
        PropertyResult::Pass
    } else {
        PropertyResult::Fail(unescape_mismatch_report(&input, &expected, &got))
    }
}

/// The report for a byte whose escape differs from the expected one.
fn escape_mismatch_report(input: u8, expected: &str, got: &String) -> (r: String)
    ensures
        r@ == "escape_char("@ + debug_char_text(input as char) + ") expected "@ + debug_text(
            expected@,
        ) + " got "@ + debug_text(got@),
{
    broadcast use vstd::string::to_string_from_display_ensures_for_str;

    let mut m = "escape_char(".to_string();
    m.append(debug_char(input as char).as_str());
    m.append(") expected ");
    m.append(debug_str(expected).as_str());
    m.append(" got ");
    m.append(debug_str(got.as_str()).as_str());
    m
}

/// `escape_char` writes `&#10;` for a line feed and `&#13;` for a carriage
/// return, and the usual reference for each other character it escapes.
///
/// Bytes that the escaper does not handle are discarded; on every other
/// byte the property holds.
pub fn property_escape_char_codes(input: u8) -> (r: PropertyResult)
    ensures
        is_escapable(input as char) ==> r == PropertyResult::Pass,
        !is_escapable(input as char) ==> r == PropertyResult::Discard,
{
    broadcast use vstd::string::to_string_from_display_ensures_for_str;

    let allowed = input == '<' as u8 || input == '>' as u8 || input == '\'' as u8 || input == '&' as u8
        || input == '"' as u8 || input == '\t' as u8 || input == '\n' as u8 || input == '\r' as u8
        || input == ' ' as u8;
    if !allowed {
        return PropertyResult::Discard;
    }
    let s = ascii_byte_string(input);
    let mut out = String::new();
    proof {
        assert(decode_utf8(Seq::<u8>::empty()) =~= Seq::<char>::empty());
    }
    escape_char(&mut out, s.as_str(), 0, 0);
    let expected: &str = if input == '<' as u8 {
        "&lt;"
    } else if input == '>' as u8 {
        "&gt;"
    } else if input == '\'' as u8 {
        "&apos;"
    } else if input == '&' as u8 {
        "&amp;"
    } else if input == '"' as u8 {
        "&quot;"
    } else if input == '\t' as u8 {
        "&#9;"
    } else if input == '\n' as u8 {
        "&#10;"
    } else if input == '\r' as u8 {
        "&#13;"
    } else {
        "&#32;"
    };
    proof {
        reveal_strlit("&lt;");
        reveal_strlit("&gt;");
        reveal_strlit("&apos;");
        reveal_strlit("&amp;");
        reveal_strlit("&quot;");
        reveal_strlit("&#9;");
        reveal_strlit("&#10;");
        reveal_strlit("&#13;");
        reveal_strlit("&#32;");
        assert(s@.subrange(0, 0) =~= Seq::<char>::empty());
        assert(out@ =~= escape_code(input as char));
        assert(expected@ =~= escape_code(input as char));
    }
    let expected_text = expected.to_string();
    if out == expected_text {
        PropertyResult::Pass
    } else {
        PropertyResult::Fail(escape_mismatch_report(input, expected, &out))
    }
}

/// The escape of a single byte, written into a fresh string.
pub fn escape_char_to_string(b: u8) -> (r: String)
    requires
        is_escapable(b as char),
    ensures
        r@ == escape_code(b as char),
{
    let s = ascii_byte_string(b);
    let mut out = String::new();
    proof {
        assert(decode_utf8(Seq::<u8>::empty()) =~= Seq::<char>::empty());
    }
    escape_char(&mut out, s.as_str(), 0, 0);
    assert(out@ =~= escape_code(b as char));
    out
}

} // verus!
