//! JSON literals inside TJSON: numbers and double quoted strings are JSON's own
//! spellings, so they are validated, decoded and encoded by `serde_json`.
use vstd::prelude::*;

verus! {

pub open spec fn is_digit(c: char) -> bool {
    '0' <= c && c <= '9'
}

/// How many digits run in `s` from position `i`.
pub open spec fn digit_run(s: Seq<char>, i: int) -> nat
    decreases s.len() - i,
{
    if 0 <= i < s.len() && is_digit(s[i]) {
        1 + digit_run(s, i + 1)
    } else {
        0
    }
}

/// Where the fraction part that may start at `b` ends, or -1 when a `.` is
/// not followed by a digit.
pub open spec fn fraction_end(s: Seq<char>, b: int) -> int {
    if b < s.len() && s[b] == '.' {
        if digit_run(s, b + 1) >= 1 { b + 1 + digit_run(s, b + 1) } else { -1 }
    } else {
        b
    }
}

/// The JSON number grammar: `-? (0 | [1-9][0-9]*) (. [0-9]+)? ([eE] [+-]? [0-9]+)?`,
/// covering the whole of `s`.
pub open spec fn json_number(s: Seq<char>) -> bool {
    let a: int = if s.len() > 0 && s[0] == '-' { 1 } else { 0 };
    let n = digit_run(s, a);
    let b = a + n;
    let c = fraction_end(s, b);
    &&& n >= 1
    &&& (s[a] == '0' ==> n == 1)
    &&& c >= 0
    &&& if c < s.len() && (s[c] == 'e' || s[c] == 'E') {
        let d: int = if c + 1 < s.len() && (s[c + 1] == '+' || s[c + 1] == '-') { c + 2 } else { c + 1 };
        digit_run(s, d) >= 1 && d + digit_run(s, d) == s.len()
    } else {
        c == s.len()
    }
}

pub proof fn lemma_digit_run(s: Seq<char>, i: int)
    requires
        0 <= i,
    ensures
        i + digit_run(s, i) <= s.len() || digit_run(s, i) == 0,
        forall|j: int| i <= j < i + digit_run(s, i) ==> is_digit(#[trigger] s[j]),
    decreases s.len() - i,
{
    if 0 <= i < s.len() && is_digit(s[i]) {
        lemma_digit_run(s, i + 1);
    }
}

/// A JSON number opens with a minus sign or a digit and closes with a digit.
pub proof fn lemma_json_number_edges(s: Seq<char>)
    requires
        json_number(s),
    ensures
        s.len() > 0,
        s[0] == '-' || is_digit(s[0]),
        is_digit(s[s.len() - 1]),
{
    let a: int = if s.len() > 0 && s[0] == '-' { 1 } else { 0 };
    lemma_digit_run(s, a);
    let b = a + digit_run(s, a);
    lemma_digit_run(s, b + 1);
    let c = fraction_end(s, b);
    if c < s.len() && (s[c] == 'e' || s[c] == 'E') {
        let d: int = if c + 1 < s.len() && (s[c + 1] == '+' || s[c + 1] == '-') { c + 2 } else { c + 1 };
        lemma_digit_run(s, d);
        assert(is_digit(s[d + digit_run(s, d) - 1]));
    } else if b < s.len() && s[b] == '.' {
        assert(is_digit(s[b + 1 + digit_run(s, b + 1) - 1]));
    } else {
        assert(is_digit(s[b - 1]));
    }
}

/// A JSON number holds no space and no comma.
pub proof fn lemma_json_number_spaceless(s: Seq<char>)
    requires
        json_number(s),
    ensures
        forall|i: int| 0 <= i < s.len() ==> s[i] != ' ',
        forall|i: int| 0 <= i < s.len() ==> s[i] != ',',
{
    let a: int = if s.len() > 0 && s[0] == '-' { 1 } else { 0 };
    lemma_digit_run(s, a);
    let b = a + digit_run(s, a);
    lemma_digit_run(s, b + 1);
    let c = fraction_end(s, b);
    let d: int = if c + 1 < s.len() && (s[c + 1] == '+' || s[c + 1] == '-') { c + 2 } else { c + 1 };
    lemma_digit_run(s, d);
    assert forall|i: int| 0 <= i < s.len() implies s[i] != ' ' && s[i] != ',' by {
        if i < a {
        } else if i < b {
            assert(is_digit(s[i]));
        } else if i < c {
            if i > b {
                assert(is_digit(s[i]));
            }
        } else if i == c {
        } else if i < d {
        } else {
            assert(is_digit(s[i]));
        }
    }
}

/// Does `serde_json` accept `s` as a number (`serde_json::Number::from_str`)?
///
/// Built with `arbitrary_precision`, that function scans exactly the JSON
/// number grammar over the whole string with no whitespace allowed and no
/// range limit, which is what the contract states.
#[verifier::external_body]
pub fn json_number_accepts(s: &str) -> (r: bool)
    ensures
        r == json_number(s@),
{
    s.parse::<serde_json::Number>().is_ok()
}

/// The string value that a complete JSON string literal `lit` denotes, when
/// `serde_json` accepts it. Defined by `serde_json`'s decoder.
pub uninterp spec fn json_string_value(lit: Seq<char>) -> Option<Seq<char>>;

/// Decode a JSON string literal with `serde_json::from_str::<String>`.
///
/// The decoded value is named rather than restated: escapes, `\u` surrogate
/// pairs and the control characters JSON forbids are `serde_json`'s to judge.
#[verifier::external_body]
pub fn json_string_decode(lit: &str) -> (r: Option<String>)
    ensures
        r is Some <==> json_string_value(lit@) is Some,
        r matches Some(v) ==> json_string_value(lit@) == Some(v@),
{
    serde_json::from_str::<String>(lit).ok()
}

/// The escape `serde_json` writes for one character of a string.
pub open spec fn json_escape(c: char) -> Seq<char> {
    if c == '"' {
        seq!['\\', '"']
    } else if c == '\\' {
        seq!['\\', '\\']
    } else if c == '\u{8}' {
        seq!['\\', 'b']
    } else if c == '\t' {
        seq!['\\', 't']
    } else if c == '\n' {
        seq!['\\', 'n']
    } else if c == '\u{c}' {
        seq!['\\', 'f']
    } else if c == '\r' {
        seq!['\\', 'r']
    } else if (c as u32) < 0x20 {
        seq!['\\', 'u', '0', '0', lower_hex((c as u32 / 16) as nat), lower_hex((c as u32 % 16) as nat)]
    } else {
        seq![c]
    }
}

pub open spec fn lower_hex(d: nat) -> char {
    if d < 10 { ((d + 0x30) as u32) as char } else { ((d - 10 + 0x61) as u32) as char }
}

pub open spec fn json_escape_all(s: Seq<char>) -> Seq<char>
    decreases s.len(),
{
    if s.len() == 0 {
        Seq::empty()
    } else {
        json_escape_all(s.drop_last()) + json_escape(s.last())
    }
}

/// A JSON string literal for `s`, quotes included.
pub open spec fn json_quoted(s: Seq<char>) -> Seq<char> {
    seq!['"'] + json_escape_all(s) + seq!['"']
}

/// Encode `s` as a JSON string literal with `serde_json::to_string`.
///
/// `serde_json` escapes `"`, `\` and the C0 controls (using the short forms
/// `\b \t \n \f \r` where they exist and `\u00xx` in lower-case hex
/// otherwise) and writes every other character as itself; serializing a
/// `&str` cannot fail.
#[verifier::external_body]
pub fn json_string_encode(s: &str) -> (r: String)
    ensures
        r@ == json_quoted(s@),
{
    serde_json::to_string(s).unwrap_or_default()
}

} // verus!
