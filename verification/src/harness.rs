//! The bookkeeping of a property-checking run: counters, the outcome of a
//! run over several properties, the deterministic witness run, and the
//! one-line JSON report.
use vstd::prelude::*;
use vstd::string::*;

use crate::etna::{
    is_predefined_entity_text, property_escape_char_codes, property_unescape_predef_entities,
    PropertyResult,
};
use crate::escape::is_escapable;
use crate::text::{all_ascii, chars_of, decimal_digits, lemma_ascii_utf8, push_char, push_decimal};

verus! {

/// What a run counted: the inputs tried and the time taken, in
/// microseconds.
#[derive(Clone, Copy, Debug)]
pub struct Metrics {
    pub inputs: u64,
    pub elapsed_us: u128,
}

impl Default for Metrics {
    fn default() -> (r: Metrics)
        ensures
            r.inputs == 0,
            r.elapsed_us == 0,
    {
        Metrics { inputs: 0, elapsed_us: 0 }
    }
}

impl Metrics {
    /// The counters of two runs added up.
    pub fn combine(self, other: Metrics) -> (r: Metrics)
        requires
            self.inputs + other.inputs <= u64::MAX,
            self.elapsed_us + other.elapsed_us <= u128::MAX,
        ensures
            r.inputs == self.inputs + other.inputs,
            r.elapsed_us == self.elapsed_us + other.elapsed_us,
    {
        Metrics {
            inputs: self.inputs + other.inputs,
            elapsed_us: self.elapsed_us + other.elapsed_us,
        }
    }
}

/// A property's result as a run sees it: a discarded input is no failure.
pub fn to_err(r: PropertyResult) -> (out: Result<(), String>)
    ensures
        match r {
            PropertyResult::Fail(m) => out == Err::<(), String>(m),
            _ => out == Ok::<(), String>(()),
        },
{
    match r {
        PropertyResult::Pass | PropertyResult::Discard => Ok(()),
        PropertyResult::Fail(m) => Err(m),
    }
}

/// The inputs counted by a list of runs, added up.
pub open spec fn total_inputs(runs: Seq<(Result<(), String>, Metrics)>) -> int
    decreases runs.len(),
{
    if runs.len() == 0 {
        0
    } else {
        total_inputs(runs.drop_last()) + runs.last().1.inputs
    }
}

/// The time taken by a list of runs, added up.
pub open spec fn total_elapsed(runs: Seq<(Result<(), String>, Metrics)>) -> int
    decreases runs.len(),
{
    if runs.len() == 0 {
        0
    } else {
        total_elapsed(runs.drop_last()) + runs.last().1.elapsed_us
    }
}

/// The runs at the front of a list count no more than the whole list.
proof fn lemma_totals_of_prefix(runs: Seq<(Result<(), String>, Metrics)>, k: int)
    requires
        0 <= k <= runs.len(),
    ensures
        total_inputs(runs.take(k)) <= total_inputs(runs),
        total_elapsed(runs.take(k)) <= total_elapsed(runs),
    decreases runs.len() - k,
{
    if k < runs.len() {
        lemma_totals_of_prefix(runs, k + 1);
        assert(runs.take(k + 1).drop_last() =~= runs.take(k));
    } else {
        assert(runs.take(k) =~= runs);
    }
}

/// The message of the first run in the list that failed, if any did.
pub open spec fn first_failure(runs: Seq<(Result<(), String>, Metrics)>) -> Option<String>
    decreases runs.len(),
{
    if runs.len() == 0 {
        None
    } else if first_failure(runs.drop_last()) is Some {
        first_failure(runs.drop_last())
    } else {
        match runs.last().0 {
            Err(m) => Some(m),
            Ok(_) => None,
        }
    }
}

/// The outcome of running several properties one after the other: the
/// first failure, if any, and the counters added up.
pub fn combine_runs(runs: &Vec<(Result<(), String>, Metrics)>) -> (r: (Result<(), String>, Metrics))
    requires
        total_inputs(runs@) <= u64::MAX,
        total_elapsed(runs@) <= u128::MAX,
    ensures
        r.0 == (match first_failure(runs@) {
            Some(m) => Err::<(), String>(m),
            None => Ok(()),
        }),
        r.1.inputs == total_inputs(runs@),
        r.1.elapsed_us == total_elapsed(runs@),
        forall|k: int|
            0 <= k < runs@.len() && #[trigger] runs@[k].0 is Err && (forall|j: int|
                0 <= j < k ==> runs@[j].0 is Ok) ==> r.0 == runs@[k].0,
        (forall|k: int| 0 <= k < runs@.len() ==> #[trigger] runs@[k].0 is Ok) ==> r.0 is Ok,
{
    proof {
        lemma_first_failure_is_first_err(runs@);
    }
    let mut total = Metrics::default();
    let mut failure: Option<String> = None;
    let mut i: usize = 0;
    assert(runs@.take(0) =~= Seq::<(Result<(), String>, Metrics)>::empty());
    proof {
        assert forall|k: int| 0 <= k <= runs@.len() implies total_inputs(#[trigger] runs@.take(k))
            <= u64::MAX && total_elapsed(runs@.take(k)) <= u128::MAX by {
            lemma_totals_of_prefix(runs@, k);
        }
    }
    while i < runs.len()
        invariant
            i <= runs.len(),
            forall|k: int| 0 <= k <= runs@.len() ==> total_inputs(#[trigger] runs@.take(k)) <= u64::MAX,
            forall|k: int| 0 <= k <= runs@.len() ==> total_elapsed(#[trigger] runs@.take(k)) <= u128::MAX,
            failure == first_failure(runs@.take(i as int)),
            total.inputs == total_inputs(runs@.take(i as int)),
            total.elapsed_us == total_elapsed(runs@.take(i as int)),
        decreases runs.len() - i,
    {
        let ghost next = runs@.take(i + 1);
        assert(next.drop_last() =~= runs@.take(i as int));
        assert(next.last() == runs@[i as int]);
        assert(total_inputs(next) <= u64::MAX);
        assert(total_elapsed(next) <= u128::MAX);
        total = total.combine(runs[i].1);
        if failure.is_none() {
            match &runs[i].0 {
                Ok(_) => {},
                Err(m) => {
                    failure = Some(m.clone());
                },
            }
        }
        i = i + 1;
    }
    assert(runs@.take(i as int) =~= runs@);
    match failure {
        Some(m) => (Err(m), total),
        None => (Ok(()), total),
    }
}

/// Whether two string slices hold the same characters.
pub fn same_text(a: &str, b: &str) -> (r: bool)
    ensures
        r == (a@ == b@),
{
    let x = chars_of(a);
    let y = chars_of(b);
    if x.len() != y.len() {
        return false;
    }
    let mut i: usize = 0;
    while i < x.len()
        invariant
            x@ == a@,
            y@ == b@,
            x.len() == y.len(),
            i <= x.len(),
            forall|k: int| 0 <= k < i ==> x@[k] == y@[k],
        decreases x.len() - i,
    {
        if x[i] != y[i] {
            return false;
        }
        i = i + 1;
    }
    assert(x@ =~= y@);
    true
}

/// The deterministic run: each property on its witness
/// input (`&lt;` for the entity property, a line feed for the escape
/// property). `None` for an unknown property name.
pub fn run_etna_witness(property: &str) -> (r: Option<Result<(), String>>)
    ensures
        property@ == "UnescapePredefEntities"@ ==> r == Some(Ok::<(), String>(())),
        property@ == "EscapeCharCodes"@ ==> r == Some(Ok::<(), String>(())),
        property@ != "UnescapePredefEntities"@ && property@ != "EscapeCharCodes"@ ==> r is None,
{
    if same_text(property, "UnescapePredefEntities") {
        let input = vec!['&' as u8, 'l' as u8, 't' as u8, ';' as u8];
        proof {
            let s = input@;
            assert(all_ascii(s));
            lemma_ascii_utf8(s);
            assert(s.subrange(1, 4) =~= crate::etna::lt_body());
            assert(crate::etna::entity_tokens_from(s, 4));
            assert(crate::etna::entity_tokens_from(s, 0));
            assert(is_predefined_entity_text(s));
        }
        Some(to_err(property_unescape_predef_entities(input)))
    } else if same_text(property, "EscapeCharCodes") {
        assert(is_escapable('\n' as u8 as char));
        Some(to_err(property_escape_char_codes('\n' as u8)))
    } else {
        None
    }
}

/// A hexadecimal digit, in lower case.
pub open spec fn hex_digit(n: nat) -> char {
    if n < 10 {
        (n + '0' as nat) as char
    } else {
        (n - 10 + 'a' as nat) as char
    }
}

/// How a character stands inside a JSON string literal.
pub open spec fn json_char(c: char) -> Seq<char> {
    if c == '"' {
        seq!['\\', '"']
    } else if c == '\\' {
        seq!['\\', '\\']
    } else if c == '\n' {
        seq!['\\', 'n']
    } else if c == '\r' {
        seq!['\\', 'r']
    } else if c == '\t' {
        seq!['\\', 't']
    } else if (c as u32) < 0x20 {
        let v = (c as u32) as nat;
        seq![
            '\\',
            'u',
            hex_digit((v / 4096) % 16),
            hex_digit((v / 256) % 16),
            hex_digit((v / 16) % 16),
            hex_digit(v % 16),
        ]
    } else {
        seq![c]
    }
}

/// The characters of `s`, each as it stands inside a JSON string literal.
pub open spec fn json_chars(s: Seq<char>) -> Seq<char>
    decreases s.len(),
{
    if s.len() == 0 {
        Seq::empty()
    } else {
        json_chars(s.drop_last()) + json_char(s.last())
    }
}

/// `s` as a JSON string literal.
pub open spec fn json_quote(s: Seq<char>) -> Seq<char> {
    seq!['"'] + json_chars(s) + seq!['"']
}

/// `s` as a JSON string literal.
pub fn json_str(s: &str) -> (r: String)
    ensures
        r@ == json_quote(s@),
{
    let chars = chars_of(s);
    let mut out = String::new();
    push_char(&mut out, '"');
    let mut i: usize = 0;
    assert(chars@.take(0) =~= Seq::<char>::empty());
    while i < chars.len()
        invariant
            i <= chars.len(),
            out@ == seq!['"'] + json_chars(chars@.take(i as int)),
        decreases chars.len() - i,
    {
        let ghost before = out@;
        let c = chars[i];
        if c == '"' {
            push_char(&mut out, '\\');
            push_char(&mut out, '"');
        } else if c == '\\' {
            push_char(&mut out, '\\');
            push_char(&mut out, '\\');
        } else if c == '\n' {
            push_char(&mut out, '\\');
            push_char(&mut out, 'n');
        } else if c == '\r' {
            push_char(&mut out, '\\');
            push_char(&mut out, 'r');
        } else if c == '\t' {
            push_char(&mut out, '\\');
            push_char(&mut out, 't');
        } else if (c as u32) < 0x20 {
            let v = c as u32;
            let high = (v / 16) as u8;
            let low = (v % 16) as u8;
            let low_digit = if low < 10 {
                ('0' as u8 + low) as char
            } else {
                ('a' as u8 + low - 10) as char
            };
            push_char(&mut out, '\\');
            push_char(&mut out, 'u');
            push_char(&mut out, '0');
            push_char(&mut out, '0');
            push_char(&mut out, ('0' as u8 + high) as char);
            push_char(&mut out, low_digit);
            assert((v as nat / 4096) % 16 == 0 && (v as nat / 256) % 16 == 0);
            assert(high as nat == (v as nat / 16) % 16);
            assert(low as nat == v as nat % 16);
            assert(hex_digit(0) == '0');
            assert(hex_digit(high as nat) == ('0' as u8 + high) as char);
            assert(hex_digit(low as nat) == low_digit);
            assert(out@ =~= before + json_char(c));
        } else {
            push_char(&mut out, c);
        }
        assert(chars@.take(i + 1).drop_last() =~= chars@.take(i as int));
        assert(out@ =~= before + json_char(c));
        i = i + 1;
    }
    assert(chars@.take(i as int) =~= s@);
    push_char(&mut out, '"');
    out
}

/// An optional text as a JSON value: a string literal, or `null`.
pub open spec fn json_optional(t: Option<Seq<char>>) -> Seq<char> {
    match t {
        Some(x) => json_quote(x),
        None => "null"@,
    }
}

pub open spec fn view_of_optional(t: Option<&str>) -> Option<Seq<char>> {
    match t {
        Some(x) => Some(x@),
        None => None,
    }
}

/// The one-line JSON report of a run.
pub open spec fn report_line(
    tool: Seq<char>,
    property: Seq<char>,
    status: Seq<char>,
    inputs: nat,
    elapsed_us: nat,
    counterexample: Option<Seq<char>>,
    error: Option<Seq<char>>,
) -> Seq<char> {
    "{\"status\":"@ + json_quote(status) + ",\"tests\":"@ + decimal_digits(inputs)
        + ",\"discards\":0,\"time\":"@ + json_quote(decimal_digits(elapsed_us) + "us"@)
        + ",\"counterexample\":"@ + json_optional(counterexample) + ",\"error\":"@
        + json_optional(error) + ",\"tool\":"@ + json_quote(tool) + ",\"property\":"@
        + json_quote(property) + "}"@
}

/// An optional text as a JSON value: a string literal, or `null`.
fn json_optional_str(t: Option<&str>) -> (r: String)
    ensures
        r@ == json_optional(view_of_optional(t)),
{
    broadcast use vstd::string::to_string_from_display_ensures_for_str;

    match t {
        Some(x) => json_str(x),
        None => "null".to_string(),
    }
}

/// The one-line JSON report of a run of `tool` on `property`: its status,
/// the inputs it tried, the time it took, and the counterexample or the
/// error, where there is one.
pub fn json_report(
    tool: &str,
    property: &str,
    status: &str,
    metrics: Metrics,
    counterexample: Option<&str>,
    error: Option<&str>,
) -> (r: String)
    ensures
        r@ == report_line(
            tool@,
            property@,
            status@,
            metrics.inputs as nat,
            metrics.elapsed_us as nat,
            view_of_optional(counterexample),
            view_of_optional(error),
        ),
{
    broadcast use vstd::string::to_string_from_display_ensures_for_str;

    let mut time = String::new();
    push_decimal(&mut time, metrics.elapsed_us);
    time.append("us");
    let mut line = "{\"status\":".to_string();
    line.append(json_str(status).as_str());
    line.append(",\"tests\":");
    push_decimal(&mut line, metrics.inputs as u128);
    line.append(",\"discards\":0,\"time\":");
    line.append(json_str(time.as_str()).as_str());
    line.append(",\"counterexample\":");
    line.append(json_optional_str(counterexample).as_str());
    line.append(",\"error\":");
    line.append(json_optional_str(error).as_str());
    line.append(",\"tool\":");
    line.append(json_str(tool).as_str());
    line.append(",\"property\":");
    line.append(json_str(property).as_str());
    line.append("}");
    assert(line@ =~= report_line(
        tool@,
        property@,
        status@,
        metrics.inputs as nat,
        metrics.elapsed_us as nat,
        view_of_optional(counterexample),
        view_of_optional(error),
    ));
    line
}

/// The failure kept is that of the lowest-numbered run that failed, and
/// there is none exactly when every run passed: a run that passes after a
/// failed one never clears the failure.
pub proof fn lemma_first_failure_is_first_err(runs: Seq<(Result<(), String>, Metrics)>)
    ensures
        forall|k: int|
            0 <= k < runs.len() && #[trigger] runs[k].0 is Err && (forall|j: int|
                0 <= j < k ==> runs[j].0 is Ok) ==> first_failure(runs) == Some(runs[k].0->Err_0),
        (forall|k: int| 0 <= k < runs.len() ==> #[trigger] runs[k].0 is Ok) <==> first_failure(
            runs,
        ) is None,
    decreases runs.len(),
{
    if runs.len() > 0 {
        let front = runs.drop_last();
        lemma_first_failure_is_first_err(front);
        assert forall|k: int|
            0 <= k < runs.len() && #[trigger] runs[k].0 is Err && (forall|j: int|
                0 <= j < k ==> runs[j].0 is Ok) implies first_failure(runs) == Some(
            runs[k].0->Err_0,
        ) by {
            if k < front.len() {
                assert(front[k] == runs[k]);
                assert forall|j: int| 0 <= j < k implies front[j].0 is Ok by {
                    assert(front[j] == runs[j]);
                }
            } else {
                assert forall|j: int| 0 <= j < front.len() implies #[trigger] front[j].0 is Ok by {
                    assert(front[j] == runs[j]);
                }
            }
        }
        if forall|k: int| 0 <= k < runs.len() ==> #[trigger] runs[k].0 is Ok {
            assert forall|j: int| 0 <= j < front.len() implies #[trigger] front[j].0 is Ok by {
                assert(front[j] == runs[j]);
            }
        }
        if first_failure(runs) is None {
            assert forall|k: int| 0 <= k < runs.len() implies #[trigger] runs[k].0 is Ok by {
                if k < front.len() {
                    assert(front[k] == runs[k]);
                }
            }
        }
    }
}

/// Every character other than the quotation mark, the backslash and the
/// control characters below U+0020 stands for itself in a JSON string
/// literal; only those get an escape, which is one of `\"`, `\\`, `\n`,
/// `\r`, `\t` or `\uXXXX`.
pub proof fn lemma_json_char_passthrough(c: char)
    ensures
        c != '"' && c != '\\' && (c as u32) >= 0x20 ==> json_char(c) == seq![c],
        c == '"' ==> json_char(c) == seq!['\\', '"'],
        c == '\\' ==> json_char(c) == seq!['\\', '\\'],
        (c as u32) < 0x20 ==> json_char(c).len() >= 2 && json_char(c)[0] == '\\' && (
        json_char(c)[1] == 'n' || json_char(c)[1] == 'r' || json_char(c)[1] == 't' || json_char(
            c,
        )[1] == 'u'),
{
}

/// A text without quotation marks, backslashes or control characters is
/// quoted as it is.
pub proof fn lemma_json_quote_plain(s: Seq<char>)
    requires
        forall|i: int|
            0 <= i < s.len() ==> #[trigger] s[i] != '"' && s[i] != '\\' && (s[i] as u32) >= 0x20,
    ensures
        json_quote(s) == seq!['"'] + s + seq!['"'],
    decreases s.len(),
{
    lemma_json_chars_plain(s);
}

proof fn lemma_json_chars_plain(s: Seq<char>)
    requires
        forall|i: int|
            0 <= i < s.len() ==> #[trigger] s[i] != '"' && s[i] != '\\' && (s[i] as u32) >= 0x20,
    ensures
        json_chars(s) == s,
    decreases s.len(),
{
    if s.len() > 0 {
        let front = s.drop_last();
        assert forall|i: int| 0 <= i < front.len() implies #[trigger] front[i] != '"' && front[i]
            != '\\' && (front[i] as u32) >= 0x20 by {
            assert(front[i] == s[i]);
        }
        lemma_json_chars_plain(front);
        let c = s.last();
        assert(c == s[s.len() - 1]);
        lemma_json_char_passthrough(c);
        assert(front + seq![c] =~= s);
    }
}

} // verus!
