//! MINIMAL JSON: compact JSON with no whitespace outside its strings, which a
//! TJSON line may hold in place of a container. Strings and numbers are JSON's
//! own spellings and go through `serde_json`; the structure is read here.
use vstd::prelude::*;
use crate::document::{DocNode, DocEntry, StringForm, KeyForm};
use crate::number::Number;
use crate::value::Json;
use crate::jsonlit::{json_number, is_digit, digit_run, fraction_end, lemma_digit_run, lemma_json_number_edges};
use crate::lex::{parse_json_string_prefix, json_string_prefix, lemma_closing_quote_bound};

verus! {

/// How deeply MINIMAL JSON may nest: `serde_json`'s own recursion limit.
pub const MINIMAL_DEPTH: usize = 128;

/// The characters a JSON number is spelled with.
pub open spec fn number_char(c: char) -> bool {
    ('0' <= c && c <= '9') || c == '-' || c == '+' || c == '.' || c == 'e' || c == 'E'
}

/// Where the run of number characters starting at `i` ends.
pub open spec fn number_run_end(s: Seq<char>, i: int) -> int
    decreases s.len() - i,
{
    if 0 <= i < s.len() && number_char(s[i]) { number_run_end(s, i + 1) } else { i }
}

/// Is `lit` spelled at `i` in `s`?
pub open spec fn spelled(s: Seq<char>, i: int, lit: Seq<char>) -> bool {
    0 <= i && i + lit.len() <= s.len() && s.subrange(i, i + lit.len()) == lit
}

/// The MINIMAL JSON value that starts at `i`, with `room` more containers
/// allowed to open: its data and where it ends.
pub open spec fn value_of(s: Seq<char>, i: int, room: nat) -> Option<(Json, int)>
    decreases room, s.len() - i, 0int,
{
    if i < 0 || i >= s.len() {
        None
    } else if s[i] == '"' {
        match json_string_prefix(s.subrange(i, s.len() as int)) {
            Some((v, n)) => Some((Json::Str(v), i + n)),
            None => None,
        }
    } else if s[i] == '[' {
        if room == 0 {
            None
        } else if i + 1 < s.len() && s[i + 1] == ']' {
            Some((Json::Array(Seq::empty()), i + 2))
        } else {
            items_of(s, i + 1, (room - 1) as nat, Seq::empty())
        }
    } else if s[i] == '{' {
        if room == 0 {
            None
        } else if i + 1 < s.len() && s[i + 1] == '}' {
            Some((Json::Object(Seq::empty()), i + 2))
        } else {
            entries_of(s, i + 1, (room - 1) as nat, Seq::empty())
        }
    } else if s[i] == 't' {
        if spelled(s, i, seq!['t', 'r', 'u', 'e']) { Some((Json::Bool(true), i + 4)) } else { None }
    } else if s[i] == 'f' {
        if spelled(s, i, seq!['f', 'a', 'l', 's', 'e']) { Some((Json::Bool(false), i + 5)) } else { None }
    } else if s[i] == 'n' {
        if spelled(s, i, seq!['n', 'u', 'l', 'l']) { Some((Json::Null, i + 4)) } else { None }
    } else if s[i] == '-' || ('0' <= s[i] && s[i] <= '9') {
        let j = number_run_end(s, i);
        if json_number(s.subrange(i, j)) { Some((Json::Number(s.subrange(i, j)), j)) } else { None }
    } else {
        None
    }
}

/// The rest of an array whose next element starts at `k`, `acc` holding the
/// elements read so far.
pub open spec fn items_of(s: Seq<char>, k: int, room: nat, acc: Seq<Json>) -> Option<(Json, int)>
    decreases room, s.len() - k, 1int,
{
    match value_of(s, k, room) {
        None => None,
        Some((v, next)) => {
            if next < 0 || next >= s.len() {
                None
            } else if s[next] == ']' {
                Some((Json::Array(acc.push(v)), next + 1))
            } else if s[next] == ',' && next >= k {
                items_of(s, next + 1, room, acc.push(v))
            } else {
                None
            }
        },
    }
}

/// The rest of an object whose next entry starts at `k`, `acc` holding the
/// entries read so far.
pub open spec fn entries_of(s: Seq<char>, k: int, room: nat, acc: Seq<(Seq<char>, Json)>) -> Option<(Json, int)>
    decreases room, s.len() - k, 1int,
{
    if k < 0 || k >= s.len() || s[k] != '"' {
        None
    } else {
        match json_string_prefix(s.subrange(k, s.len() as int)) {
            None => None,
            Some((key, n)) => {
                let colon = k + n;
                if colon >= s.len() || s[colon] != ':' {
                    None
                } else {
                    match value_of(s, colon + 1, room) {
                        None => None,
                        Some((v, next)) => {
                            if next < 0 || next >= s.len() {
                                None
                            } else if s[next] == '}' {
                                Some((Json::Object(acc.push((key, v))), next + 1))
                            } else if s[next] == ',' && next >= k {
                                entries_of(s, next + 1, room, acc.push((key, v)))
                            } else {
                                None
                            }
                        },
                    }
                }
            },
        }
    }
}

/// A whole fragment is one value, ending where the fragment does.
pub open spec fn minimal_json(s: Seq<char>) -> Option<Json> {
    match value_of(s, 0, MINIMAL_DEPTH as nat) {
        Some((v, e)) => if e == s.len() { Some(v) } else { None },
        None => None,
    }
}

/// A value that MINIMAL JSON can spell without strings: `null`, `true`,
/// `false`, JSON numbers as spelled, and arrays of these, nested no deeper
/// than `room` arrays.
pub open spec fn plain_json(v: Json, room: nat) -> bool
    decreases v,
{
    match v {
        Json::Null => true,
        Json::Bool(_) => true,
        Json::Number(t) => json_number(t),
        Json::Array(items) => room > 0 && plain_items(items, (room - 1) as nat),
        _ => false,
    }
}

/// Every element of `items` is `plain_json` within `room`.
pub open spec fn plain_items(items: Seq<Json>, room: nat) -> bool
    decreases items,
{
    items.len() == 0 || (plain_json(items[0], room) && plain_items(items.subrange(1, items.len() as int), room))
}

/// How JSON writes a value with no whitespace: `null`, `true`, `false`, a
/// number's spelling, `[`, the elements parted by `,`, `]`.
pub open spec fn json_text(v: Json) -> Seq<char>
    decreases v,
{
    match v {
        Json::Null => seq!['n', 'u', 'l', 'l'],
        Json::Bool(b) => if b { seq!['t', 'r', 'u', 'e'] } else { seq!['f', 'a', 'l', 's', 'e'] },
        Json::Number(t) => t,
        Json::Array(items) => seq!['['] + items_text(items) + seq![']'],
        _ => Seq::empty(),
    }
}

/// The elements of an array written one after another, parted by `,`.
pub open spec fn items_text(items: Seq<Json>) -> Seq<char>
    decreases items,
{
    if items.len() == 0 {
        Seq::empty()
    } else if items.len() == 1 {
        json_text(items[0])
    } else {
        json_text(items[0]) + seq![','] + items_text(items.subrange(1, items.len() as int))
    }
}

proof fn lemma_spelled_split(s: Seq<char>, i: int, a: Seq<char>, b: Seq<char>)
    requires
        spelled(s, i, a + b),
    ensures
        spelled(s, i, a),
        spelled(s, i + a.len(), b),
{
    let whole = s.subrange(i, i + (a + b).len());
    assert forall|k: int| 0 <= k < a.len() implies s[i + k] == a[k] by {
        assert(whole[k] == (a + b)[k]);
    }
    assert(s.subrange(i, i + a.len()) =~= a);
    assert forall|k: int| 0 <= k < b.len() implies s[i + a.len() + k] == b[k] by {
        assert(whole[a.len() + k] == (a + b)[a.len() + k]);
    }
    assert(s.subrange(i + a.len(), i + a.len() + b.len()) =~= b);
}

/// A JSON number is spelled with number characters only.
proof fn lemma_json_number_chars(t: Seq<char>)
    requires
        json_number(t),
    ensures
        forall|k: int| 0 <= k < t.len() ==> number_char(#[trigger] t[k]),
{
    let a: int = if t.len() > 0 && t[0] == '-' { 1 } else { 0 };
    lemma_digit_run(t, a);
    let b = a + digit_run(t, a);
    lemma_digit_run(t, b + 1);
    let c = fraction_end(t, b);
    let d: int = if c + 1 < t.len() && (t[c + 1] == '+' || t[c + 1] == '-') { c + 2 } else { c + 1 };
    lemma_digit_run(t, d);
    assert forall|k: int| 0 <= k < t.len() implies number_char(#[trigger] t[k]) by {
        if k < a {
        } else if k < b {
            assert(is_digit(t[k]));
        } else if k < c {
            if k > b {
                assert(is_digit(t[k]));
            }
        } else if k == c {
        } else if k < d {
        } else {
            assert(is_digit(t[k]));
        }
    }
}

proof fn lemma_number_run(s: Seq<char>, i: int, e: int)
    requires
        0 <= i <= e <= s.len(),
        forall|k: int| i <= k < e ==> number_char(#[trigger] s[k]),
        e < s.len() ==> !number_char(s[e]),
    ensures
        number_run_end(s, i) == e,
    decreases e - i,
{
    if i < e {
        lemma_number_run(s, i + 1, e);
    }
}

/// The first character of a value's text: never a `,` or `]`, and never a
/// number character but for a number.
proof fn lemma_text_head(v: Json, room: nat)
    requires
        plain_json(v, room),
    ensures
        json_text(v).len() > 0,
        json_text(v)[0] != ',' && json_text(v)[0] != ']' && json_text(v)[0] != ' ',
        !(v is Number) ==> !number_char(json_text(v)[0]),
{
    match v {
        Json::Number(t) => {
            lemma_json_number_edges(t);
        },
        _ => {},
    }
}

/// What reading a value's text at `i` gives, when what follows it is no
/// number character: the value, ending where its text does.
proof fn lemma_value_text(v: Json, s: Seq<char>, i: int, room: nat)
    requires
        plain_json(v, room),
        0 <= i,
        spelled(s, i, json_text(v)),
        i + json_text(v).len() < s.len() ==> !number_char(s[i + json_text(v).len()]),
    ensures
        value_of(s, i, room) == Some((v, i + json_text(v).len())),
    decreases v, 1int,
{
    let t = json_text(v);
    assert(s[i] == s.subrange(i, i + t.len())[0]);
    match v {
        Json::Null => {
            assert(t[0] == 'n');
        },
        Json::Bool(b) => {
            if b {
                assert(t[0] == 't');
            } else {
                assert(t[0] == 'f');
            }
        },
        Json::Number(n) => {
            lemma_json_number_edges(n);
            lemma_json_number_chars(n);
            assert forall|k: int| i <= k < i + n.len() implies number_char(#[trigger] s[k]) by {
                assert(s[k] == s.subrange(i, i + n.len())[k - i]);
            }
            lemma_number_run(s, i, i + n.len());
        },
        Json::Array(items) => {
            if items.len() == 0 {
                assert(t =~= seq!['[', ']']);
                assert(t[0] == '[' && t[1] == ']');
                assert(s[i + 1] == s.subrange(i, i + t.len())[1]);
                assert(items =~= Seq::<Json>::empty());
            } else {
                assert(t =~= seq!['['] + (items_text(items) + seq![']']));
                assert(t[0] == '[');
                lemma_spelled_split(s, i, seq!['['], items_text(items) + seq![']']);
                lemma_items_text(items, s, i + 1, (room - 1) as nat, Seq::empty());
                lemma_text_head(items[0], (room - 1) as nat);
                lemma_items_head(items, (room - 1) as nat);
                assert(s[i + 1] == s.subrange(i + 1, i + 1 + (items_text(items) + seq![']']).len())[0]);
                assert(Seq::<Json>::empty() + items =~= items);
            }
        },
        _ => {},
    }
}

/// The text of a run of elements starts as its first element's does.
proof fn lemma_items_head(items: Seq<Json>, room: nat)
    requires
        items.len() > 0,
        plain_items(items, room),
    ensures
        items_text(items).len() > 0,
        items_text(items)[0] == json_text(items[0])[0],
{
    lemma_text_head(items[0], room);
}

/// Reading the elements whose texts, parted by `,`, stand at `k` before a
/// `]`: the array of those read so far and these, ending past the `]`.
proof fn lemma_items_text(items: Seq<Json>, s: Seq<char>, k: int, room: nat, acc: Seq<Json>)
    requires
        items.len() > 0,
        plain_items(items, room),
        0 <= k,
        spelled(s, k, items_text(items) + seq![']']),
    ensures
        items_of(s, k, room, acc) == Some((Json::Array(acc + items), k + items_text(items).len() + 1)),
    decreases items, 0int,
{
    let first = items[0];
    let t0 = json_text(first);
    lemma_text_head(first, room);
    if items.len() == 1 {
        lemma_spelled_split(s, k, t0, seq![']']);
        assert(s[k + t0.len()] == s.subrange(k + t0.len(), k + t0.len() + 1)[0]);
        lemma_value_text(first, s, k, room);
        assert(acc.push(first) =~= acc + items);
    } else {
        let rest = items.subrange(1, items.len() as int);
        assert(items_text(items) + seq![']'] =~= t0 + (seq![','] + (items_text(rest) + seq![']'])));
        lemma_spelled_split(s, k, t0, seq![','] + (items_text(rest) + seq![']']));
        lemma_spelled_split(s, k + t0.len(), seq![','], items_text(rest) + seq![']']);
        assert(s[k + t0.len()] == s.subrange(k + t0.len(), k + t0.len() + 1)[0]);
        lemma_value_text(first, s, k, room);
        lemma_items_text(rest, s, k + t0.len() + 1, room, acc.push(first));
        assert(acc.push(first) + rest =~= acc + items);
    }
}

/// MINIMAL JSON reads back what JSON writes: for every value built of
/// `null`, `true`, `false`, numbers and arrays (no deeper than MINIMAL JSON
/// allows), the fragment spelling it reads as exactly that value. So `false`
/// reads as false wherever it stands, and `[false]` as an array holding it.
pub proof fn law_minimal_reads_what_it_spells(v: Json)
    requires
        plain_json(v, MINIMAL_DEPTH as nat),
    ensures
        minimal_json(json_text(v)) == Some(v),
{
    let t = json_text(v);
    assert(t.subrange(0, t.len() as int) =~= t);
    lemma_value_text(v, t, 0, MINIMAL_DEPTH as nat);
}

/// The compact text of an array opens with `[` and then no space, as
/// MINIMAL JSON on a TJSON line does.
pub proof fn lemma_array_text_opens(v: Json)
    requires
        v is Array,
        plain_json(v, MINIMAL_DEPTH as nat),
    ensures
        json_text(v).len() >= 2,
        json_text(v)[0] == '[',
        json_text(v)[1] != ' ',
{
    match v {
        Json::Array(items) => {
            let t = json_text(v);
            if items.len() == 0 {
                assert(t =~= seq!['[', ']']);
            } else {
                assert(t =~= seq!['['] + (items_text(items) + seq![']']));
                lemma_items_head(items, (MINIMAL_DEPTH - 1) as nat);
                lemma_text_head(items[0], (MINIMAL_DEPTH - 1) as nat);
                assert(t[1] == items_text(items)[0]);
            }
        },
        _ => {},
    }
}

/// Wherever `true`, `false` or `null` is spelled in a fragment, MINIMAL JSON
/// reads that literal there, and goes on just past it.
pub proof fn law_minimal_literals(s: Seq<char>, i: int, room: nat)
    requires
        0 <= i,
    ensures
        spelled(s, i, seq!['t', 'r', 'u', 'e']) ==> value_of(s, i, room) == Some((Json::Bool(true), i + 4)),
        spelled(s, i, seq!['f', 'a', 'l', 's', 'e']) ==> value_of(s, i, room) == Some((Json::Bool(false), i + 5)),
        spelled(s, i, seq!['n', 'u', 'l', 'l']) ==> value_of(s, i, room) == Some((Json::Null, i + 4)),
{
    if spelled(s, i, seq!['t', 'r', 'u', 'e']) {
        assert(s[i] == s.subrange(i, i + 4)[0]);
    }
    if spelled(s, i, seq!['f', 'a', 'l', 's', 'e']) {
        assert(s[i] == s.subrange(i, i + 5)[0]);
    }
    if spelled(s, i, seq!['n', 'u', 'l', 'l']) {
        assert(s[i] == s.subrange(i, i + 4)[0]);
    }
}

/// A fault in a MINIMAL JSON fragment: where it is (0-based, in the
/// fragment) and what is wrong.
pub struct MinimalFault {
    pub at: usize,
    pub message: String,
    pub whitespace: bool,
}

/// Is `c` whitespace as JSON counts it?
pub open spec fn json_space(c: char) -> bool {
    c == ' ' || c == '\t' || c == '\n' || c == '\r'
}

/// Reading `s` from position `i`, inside a string when `quoted`: where the
/// first whitespace outside a string is. `\\` in a string hides the
/// character after it.
pub open spec fn stray_from(s: Seq<char>, i: int, quoted: bool) -> Option<int>
    decreases s.len() - i,
{
    if i < 0 || i >= s.len() {
        None
    } else if quoted {
        if s[i] == '\\' {
            stray_from(s, if i + 1 < s.len() { i + 2 } else { i + 1 }, true)
        } else if s[i] == '"' {
            stray_from(s, i + 1, false)
        } else {
            stray_from(s, i + 1, true)
        }
    } else if s[i] == '"' {
        stray_from(s, i + 1, true)
    } else if json_space(s[i]) {
        Some(i)
    } else {
        stray_from(s, i + 1, false)
    }
}

/// The first whitespace outside a string, if any.
pub fn stray_whitespace(s: &[char]) -> (r: Option<usize>)
    ensures
        match r {
            Some(i) => stray_from(s@, 0, false) == Some(i as int),
            None => stray_from(s@, 0, false) is None,
        },
        r matches Some(i) ==> i < s.len() && json_space(s@[i as int]),
{
    let mut i: usize = 0;
    let mut in_string = false;
    while i < s.len()
        invariant
            i <= s.len(),
            stray_from(s@, 0, false) == stray_from(s@, i as int, in_string),
        decreases s.len() - i,
    {
        let c = s[i];
        if in_string {
            if c == '\\' {
                if i + 1 < s.len() {
                    i += 2;
                } else {
                    i += 1;
                }
                continue;
            }
            if c == '"' {
                in_string = false;
            }
        } else if c == '"' {
            in_string = true;
        } else if c == ' ' || c == '\t' || c == '\n' || c == '\r' {
            return Some(i);
        }
        i += 1;
    }
    None
}

fn fault(at: usize, what: &str) -> (r: MinimalFault)
    ensures
        r.at == at,
        !r.whitespace,
{
    let mut message = crate::text::lit("MINIMAL JSON must be valid JSON: ");
    crate::text::append_lit(&mut message, what);
    MinimalFault { at, message, whitespace: false }
}

fn is_number_char(c: char) -> (r: bool)
    ensures
        r == number_char(c),
{
    ('0' <= c && c <= '9') || c == '-' || c == '+' || c == '.' || c == 'e' || c == 'E'
}

/// Is `lit` spelled at `i` in `s`?
fn spelled_at(s: &[char], i: usize, lit: &str) -> (r: bool)
    requires
        i <= s.len(),
    ensures
        r == spelled(s@, i as int, lit@),
{
    let rest = crate::text::from(s, i);
    let r = crate::text::starts_with_str(rest.as_slice(), lit);
    proof {
        if lit@.len() <= rest@.len() {
            assert(rest@.subrange(0, lit@.len() as int) =~= s@.subrange(i as int, i + lit@.len()));
        }
    }
    r
}

/// The outcome of reading a value at `i`, held against `value_of`.
pub open spec fn agrees(r: Result<(DocNode, usize), MinimalFault>, spec: Option<(Json, int)>) -> bool {
    match (r, spec) {
        (Ok((n, j)), Some((v, e))) => n.data() == v && j as int == e,
        (Err(f), None) => !f.whitespace,
        _ => false,
    }
}

/// Read one value at `i`. `room` is how many more containers may open.
fn value_at(s: &[char], i: usize, room: usize) -> (r: Result<(DocNode, usize), MinimalFault>)
    requires
        i <= s.len(),
    ensures
        agrees(r, value_of(s@, i as int, room as nat)),
        r matches Ok((_, j)) ==> i < j <= s.len(),
    decreases room, 0usize,
{
    if i >= s.len() {
        return Err(fault(i, "EOF while parsing a value"));
    }
    let c = s[i];
    if c == '"' {
        let rest = crate::text::from(s, i);
        return match parse_json_string_prefix(rest.as_slice()) {
            Some((v, n)) => {
                proof { lemma_closing_quote_bound(rest@, 1); }
                Ok((string_node(v), i + n))
            },
            None => Err(fault(i, "invalid string")),
        };
    }
    if c == '[' || c == '{' {
        if room == 0 {
            return Err(fault(i, "recursion limit exceeded"));
        }
        if c == '[' {
            return array_at(s, i, room - 1);
        } else {
            return object_at(s, i, room - 1);
        }
    }
    if c == 't' {
        proof { reveal_strlit("true"); assert("true"@ =~= seq!['t', 'r', 'u', 'e']); }
        if spelled_at(s, i, "true") {
            return Ok((DocNode::bool(true), i + 4));
        }
        return Err(fault(i, "expected value"));
    }
    if c == 'f' {
        proof { reveal_strlit("false"); assert("false"@ =~= seq!['f', 'a', 'l', 's', 'e']); }
        if spelled_at(s, i, "false") {
            return Ok((DocNode::bool(false), i + 5));
        }
        return Err(fault(i, "expected value"));
    }
    if c == 'n' {
        proof { reveal_strlit("null"); assert("null"@ =~= seq!['n', 'u', 'l', 'l']); }
        if spelled_at(s, i, "null") {
            return Ok((DocNode::null(), i + 4));
        }
        return Err(fault(i, "expected value"));
    }
    if c == '-' || ('0' <= c && c <= '9') {
        let mut j = i;
        while j < s.len() && is_number_char(s[j])
            invariant
                i <= j <= s.len(),
                number_run_end(s@, j as int) == number_run_end(s@, i as int),
            decreases s.len() - j,
        {
            j += 1;
        }
        let token = crate::text::slice_of(s, i, j);
        let text = crate::text::to_string(token.as_slice());
        return match Number::parse_str(text.as_str()) {
            Ok(n) => {
                if j > i {
                    Ok((DocNode::number(n), j))
                } else {
                    assert(token@.len() == 0);
                    Err(fault(i, "invalid number"))
                }
            },
            Err(_) => Err(fault(i, "invalid number")),
        };
    }
    Err(fault(i, "expected value"))
}

fn string_node(v: String) -> (r: DocNode)
    ensures
        r.data() == Json::Str(v@),
{
    let mut node = DocNode::string(v);
    node.set_string_form(Some(StringForm::Quoted));
    node
}

/// Read an array whose `[` is at `i`.
fn array_at(s: &[char], i: usize, room: usize) -> (r: Result<(DocNode, usize), MinimalFault>)
    requires
        i < s.len(),
        s@[i as int] == '[',
    ensures
        agrees(r, value_of(s@, i as int, (room + 1) as nat)),
        r matches Ok((_, j)) ==> i < j <= s.len(),
    decreases room, 1usize,
{
    let mut items: Vec<DocNode> = Vec::new();
    let mut k = i + 1;
    if k < s.len() && s[k] == ']' {
        proof { DocNode::lemma_datas_empty(); }
        let mut node = DocNode::array(items);
        node.set_table(Some(false));
        return Ok((node, k + 1));
    }
    proof { DocNode::lemma_datas_empty(); }
    assert(value_of(s@, i as int, (room + 1) as nat) == items_of(s@, k as int, room as nat, DocNode::datas(items@)));
    loop
        invariant
            i < k <= s.len(),
            value_of(s@, i as int, (room + 1) as nat) == items_of(s@, k as int, room as nat, DocNode::datas(items@)),
        decreases s.len() - k,
    {
        let (item, next) = match value_at(s, k, room) {
            Ok(v) => v,
            Err(e) => { return Err(e); },
        };
        proof { DocNode::lemma_datas_push(items@, item); }
        items.push(item);
        if next >= s.len() {
            return Err(fault(next, "EOF while parsing a list"));
        }
        if s[next] == ']' {
            let mut node = DocNode::array(items);
            node.set_table(Some(false));
            return Ok((node, next + 1));
        }
        if s[next] != ',' {
            return Err(fault(next, "expected `,` or `]`"));
        }
        k = next + 1;
    }
}

/// Read an object whose `{` is at `i`.
fn object_at(s: &[char], i: usize, room: usize) -> (r: Result<(DocNode, usize), MinimalFault>)
    requires
        i < s.len(),
        s@[i as int] == '{',
    ensures
        agrees(r, value_of(s@, i as int, (room + 1) as nat)),
        r matches Ok((_, j)) ==> i < j <= s.len(),
    decreases room, 1usize,
{
    let mut entries: Vec<DocEntry> = Vec::new();
    let mut k = i + 1;
    if k < s.len() && s[k] == '}' {
        proof { DocNode::lemma_datas_empty(); }
        return Ok((DocNode::object(entries), k + 1));
    }
    proof { DocNode::lemma_datas_empty(); }
    assert(value_of(s@, i as int, (room + 1) as nat) == entries_of(s@, k as int, room as nat, DocNode::entry_datas(entries@)));
    loop
        invariant
            i < k <= s.len(),
            value_of(s@, i as int, (room + 1) as nat) == entries_of(s@, k as int, room as nat, DocNode::entry_datas(entries@)),
        decreases s.len() - k,
    {
        if k >= s.len() || s[k] != '"' {
            return Err(fault(k, "key must be a string"));
        }
        let rest = crate::text::from(s, k);
        let (key, n) = match parse_json_string_prefix(rest.as_slice()) {
            Some(v) => v,
            None => { return Err(fault(k, "invalid string")); },
        };
        proof { lemma_closing_quote_bound(rest@, 1); }
        let colon = k + n;
        if colon >= s.len() || s[colon] != ':' {
            return Err(fault(colon, "expected `:`"));
        }
        let (value, next) = match value_at(s, colon + 1, room) {
            Ok(v) => v,
            Err(e) => { return Err(e); },
        };
        let mut entry = DocEntry::new(key, value);
        entry.set_key_form(Some(KeyForm::Quoted));
        proof { DocNode::lemma_entry_datas_push(entries@, entry); }
        entries.push(entry);
        if next >= s.len() {
            return Err(fault(next, "EOF while parsing an object"));
        }
        if s[next] == '}' {
            return Ok((DocNode::object(entries), next + 1));
        }
        if s[next] != ',' {
            return Err(fault(next, "expected `,` or `}`"));
        }
        k = next + 1;
    }
}

/// Read a whole MINIMAL JSON fragment. Its strings and keys are recorded as
/// quoted, which is how JSON spells them. A fragment that does not read
/// reports whitespace outside a string first, when it has some.
pub fn parse_minimal_json(s: &[char]) -> (r: Result<DocNode, MinimalFault>)
    ensures
        r is Ok <==> minimal_json(s@) is Some,
        r matches Ok(n) ==> minimal_json(s@) == Some(n.data()),
        r matches Err(f) ==> f.whitespace ==> f.at < s.len() && json_space(s@[f.at as int]),
{
    let read = value_at(s, 0, MINIMAL_DEPTH);
    let fault_here = match read {
        Ok((node, end)) => {
            if end == s.len() {
                return Ok(node);
            }
            fault(end, "trailing characters")
        },
        Err(e) => e,
    };
    match stray_whitespace(s) {
        Some(at) => Err(MinimalFault {
            at,
            message: crate::text::lit("invalid MINIMAL JSON (whitespace outside strings is forbidden)"),
            whitespace: true,
        }),
        None => Err(fault_here),
    }
}

} // verus!
