//! The lexical layer of TJSON: which characters may appear at all, how a
//! document splits into lines, how a line's indentation and opener are read,
//! and where the runs that make up bare strings and scalar tokens end.
use vstd::prelude::*;
use crate::text::{leading_spaces, is_prefix};
use crate::options::{ParseOptions, LookalikeSet};

verus! {

/// Characters no TJSON line may hold: the controls (tab excepted), the
/// invisible formatting characters, the line and paragraph separators, the byte
/// order mark and the specials block's replacement controls.
pub open spec fn forbidden(c: char) -> bool {
    let u = c as u32;
    ||| (u < 0x20 && u != 0x09)
    ||| (0x7F <= u && u <= 0x9F)
    ||| u == 0xAD
    ||| u == 0x061C
    ||| u == 0x180E
    ||| (0x200B <= u && u <= 0x200F)
    ||| (0x2028 <= u && u <= 0x202E)
    ||| (0x2060 <= u && u <= 0x2064)
    ||| (0x2066 <= u && u <= 0x206F)
    ||| u == 0xFEFF
    ||| (0xFFF9 <= u && u <= 0xFFFB)
    ||| u == 0xFFFE
    ||| u == 0xFFFF
}

/// Is `c` one of the characters no line may hold?
pub fn is_forbidden(c: char) -> (r: bool)
    ensures
        r == forbidden(c),
{
    let u = c as u32;
    (u < 0x20 && u != 0x09)
        || (0x7F <= u && u <= 0x9F)
        || u == 0xAD
        || u == 0x061C
        || u == 0x180E
        || (0x200B <= u && u <= 0x200F)
        || (0x2028 <= u && u <= 0x202E)
        || (0x2060 <= u && u <= 0x2064)
        || (0x2066 <= u && u <= 0x206F)
        || u == 0xFEFF
        || (0xFFF9 <= u && u <= 0xFFFB)
        || u == 0xFFFE
        || u == 0xFFFF
}

/// What a forbidden character is, in words, for the message that refuses it.
pub open spec fn forbidden_name_of(c: char) -> Seq<char> {
    let u = c as u32;
    if u < 0x20 || (0x7F <= u && u <= 0x9F) {
        "a control character"@
    } else if u == 0xAD {
        "SOFT HYPHEN, which is invisible"@
    } else if u == 0x200B {
        "ZERO WIDTH SPACE, which is invisible"@
    } else if u == 0x200C {
        "ZERO WIDTH NON-JOINER, which is invisible"@
    } else if u == 0x200D {
        "ZERO WIDTH JOINER, which is invisible"@
    } else if u == 0x2028 {
        "LINE SEPARATOR, which some readers break lines on"@
    } else if u == 0x2029 {
        "PARAGRAPH SEPARATOR, which some readers break lines on"@
    } else if u == 0xFEFF {
        "ZERO WIDTH NO-BREAK SPACE (a byte order mark), which is invisible"@
    } else if u == 0x200E || u == 0x200F || u == 0x061C || (0x202A <= u && u <= 0x202E)
        || (0x2066 <= u && u <= 0x2069) {
        "a bidirectional control, which reorders the text around it invisibly"@
    } else {
        "an invisible formatting character"@
    }
}

/// What a forbidden character is, in words, for the message that refuses it.
pub fn forbidden_name(c: char) -> (r: &'static str)
    ensures
        r@ == forbidden_name_of(c),
{
    let u = c as u32;
    if u < 0x20 || (0x7F <= u && u <= 0x9F) {
        "a control character"
    } else if u == 0xAD {
        "SOFT HYPHEN, which is invisible"
    } else if u == 0x200B {
        "ZERO WIDTH SPACE, which is invisible"
    } else if u == 0x200C {
        "ZERO WIDTH NON-JOINER, which is invisible"
    } else if u == 0x200D {
        "ZERO WIDTH JOINER, which is invisible"
    } else if u == 0x2028 {
        "LINE SEPARATOR, which some readers break lines on"
    } else if u == 0x2029 {
        "PARAGRAPH SEPARATOR, which some readers break lines on"
    } else if u == 0xFEFF {
        "ZERO WIDTH NO-BREAK SPACE (a byte order mark), which is invisible"
    } else if u == 0x200E || u == 0x200F || u == 0x061C || (0x202A <= u && u <= 0x202E)
        || (0x2066 <= u && u <= 0x2069) {
        "a bidirectional control, which reorders the text around it invisibly"
    } else {
        "an invisible formatting character"
    }
}

/// A forbidden character at position `i` of the raw input: a line break is
/// a separator, and a carriage return right before one (or at the very end)
/// belongs to that line ending rather than to the line.
pub open spec fn forbidden_at(s: Seq<char>, i: int) -> bool {
    &&& 0 <= i < s.len()
    &&& s[i] != '\n'
    &&& forbidden(s[i])
    &&& !(s[i] == '\r' && (i + 1 == s.len() || s[i + 1] == '\n'))
}

/// How many line breaks `s` holds.
pub open spec fn newlines(s: Seq<char>) -> nat
    decreases s.len(),
{
    if s.len() == 0 {
        0
    } else {
        newlines(s.drop_last()) + if s.last() == '\n' { 1nat } else { 0nat }
    }
}

/// Where the line holding position `i` starts: just past the last line break
/// before it.
pub open spec fn line_start(s: Seq<char>, i: int) -> int
    decreases i,
{
    if i <= 0 {
        0
    } else if s[i - 1] == '\n' {
        i
    } else {
        line_start(s, i - 1)
    }
}

/// The first forbidden character of `s` is at `i`.
pub open spec fn first_forbidden_at(s: Seq<char>, i: int) -> bool {
    forbidden_at(s, i) && forall|j: int| 0 <= j < i ==> !forbidden_at(s, j)
}

/// Where the first forbidden character sat: its line (0-based) and its
/// column (0-based, counted in characters of that line).
pub struct Forbidden {
    pub line: usize,
    pub column: usize,
    pub ch: char,
}

/// A carriage return just before position `i` that belonged to a line ending.
pub open spec fn skipped_return(s: Seq<char>, i: int) -> int {
    if 0 < i && i <= s.len() && s[i - 1] == '\r' && (i == s.len() || s[i] == '\n') { 1 } else { 0 }
}

proof fn lemma_line_start_bound(s: Seq<char>, i: int)
    ensures
        i >= 0 ==> 0 <= line_start(s, i) <= i,
    decreases i,
{
    if i > 0 && s[i - 1] != '\n' {
        lemma_line_start_bound(s, i - 1);
    }
}

/// Reading `s` up to position `i`: the lines already ended by a `\n`, and the
/// line still being read. A `\r` just before a `\n` (or at the very end) is
/// part of the line ending, not of the line.
pub open spec fn lines_upto(s: Seq<char>, i: int) -> (Seq<Seq<char>>, Seq<char>)
    decreases i,
{
    if i <= 0 {
        (Seq::empty(), Seq::empty())
    } else {
        let (done, cur) = lines_upto(s, i - 1);
        let c = s[i - 1];
        if c == '\n' {
            (done.push(cur), Seq::empty())
        } else if c == '\r' && (i == s.len() || s[i] == '\n') {
            (done, cur)
        } else {
            (done, cur.push(c))
        }
    }
}

/// The lines of `s`: `\n` separates them, and the empty tail after a final
/// `\n` is no line.
pub open spec fn lines_of(s: Seq<char>) -> Seq<Seq<char>> {
    let (done, cur) = lines_upto(s, s.len() as int);
    if cur.len() == 0 && s.len() > 0 && s.last() == '\n' {
        done
    } else {
        done.push(cur)
    }
}

/// Split `s` into its lines: `\n` separates, a `\r` before it (or at the very
/// end) is dropped, and the empty tail after a final newline is no line.
/// Refuses the first forbidden character met, naming its line and column.
pub fn scan_lines(s: &[char]) -> (r: Result<Vec<Vec<char>>, Forbidden>)
    ensures
        r is Err <==> exists|i: int| forbidden_at(s@, i),
        r matches Ok(lines) ==> lines@.len() >= 1 && forall|k: int, j: int|
            0 <= k < lines@.len() && 0 <= j < lines@[k]@.len() ==> !forbidden(#[trigger] lines@[k]@[j]),
        r matches Ok(lines) ==> lines@.len() == lines_of(s@).len()
            && forall|k: int| 0 <= k < lines@.len() ==> #[trigger] lines@[k]@ == lines_of(s@)[k],
        r matches Ok(lines) ==> forall|k: int| 0 <= k < lines@.len() ==> #[trigger] lines@[k]@.len() <= s@.len(),
        r matches Err(f) ==> exists|i: int| first_forbidden_at(s@, i) && s@[i] == f.ch
            && f.line == newlines(s@.subrange(0, i)) && f.column == i - line_start(s@, i)
            && f.line < s@.len() && f.column < s@.len(),
{
    let mut lines: Vec<Vec<char>> = Vec::new();
    let mut cur: Vec<char> = Vec::new();
    let mut i: usize = 0;
    while i < s.len()
        invariant
            i <= s.len(),
            forall|j: int| 0 <= j < i ==> !forbidden_at(s@, j),
            forall|k: int, j: int|
                0 <= k < lines@.len() && 0 <= j < lines@[k]@.len() ==> !forbidden(#[trigger] lines@[k]@[j]),
            forall|j: int| 0 <= j < cur@.len() ==> !forbidden(#[trigger] cur@[j]),
            i > 0 && s@[i - 1] == '\n' ==> lines@.len() > 0,
            lines@.len() == newlines(s@.subrange(0, i as int)),
            cur@.len() == i - line_start(s@, i as int) - skipped_return(s@, i as int),
            lines@.len() <= i,
            lines@.len() == lines_upto(s@, i as int).0.len(),
            forall|k: int| 0 <= k < lines@.len() ==> #[trigger] lines@[k]@ == lines_upto(s@, i as int).0[k],
            cur@ == lines_upto(s@, i as int).1,
            cur@.len() <= i,
            forall|k: int| 0 <= k < lines@.len() ==> #[trigger] lines@[k]@.len() <= i,
        decreases s.len() - i,
    {
        let c = s[i];
        proof {
            assert(s@.subrange(0, i + 1).drop_last() =~= s@.subrange(0, i as int));
            lemma_line_start_bound(s@, i as int);
        }
        if c == '\n' {
            let done = cur;
            lines.push(done);
            cur = Vec::new();
        } else if c == '\r' && (i + 1 == s.len() || s[i + 1] == '\n') {
        } else if is_forbidden(c) {
            assert(forbidden_at(s@, i as int));
            assert(skipped_return(s@, i as int) == 0);
            return Err(Forbidden { line: lines.len(), column: cur.len(), ch: c });
        } else {
            cur.push(c);
        }
        i += 1;
    }
    let phantom = cur.len() == 0 && s.len() > 0 && s[s.len() - 1] == '\n';
    if !phantom {
        lines.push(cur);
    }
    assert forall|j: int| !forbidden_at(s@, j) by {
        if 0 <= j < s.len() {
            assert(!forbidden_at(s@, j));
        }
    }
    Ok(lines)
}

/// The even indent a line's leading spaces stand for, and what (if anything)
/// opened a value in the column where that indent ends.
#[derive(Clone, Copy, Debug, PartialEq, Eq)]
pub enum Opener {
    /// Nothing: the line's text starts where its indent ends.
    Nothing,
    /// A bare string's opening quote, written as a space or as `_`.
    BareString,
    /// The leading space of an indent offset glyph, ` /<` or ` />`.
    Glyph,
}

#[derive(Clone, Copy, Debug, PartialEq, Eq)]
pub struct Leading {
    pub indent: usize,
    pub opener: Opener,
}

/// How a line's leading spaces are read. An odd count spends its last space
/// on an opener; a fold marker there is between two levels and refused (the
/// `Err` is its column). `_` after an even count is the visible opener.
pub open spec fn leading_of(line: Seq<char>) -> Result<Leading, nat> {
    let s = leading_spaces(line);
    let rest = line.subrange(s as int, line.len() as int);
    if s % 2 == 1 {
        if is_prefix(seq!['/', '<'], rest) || is_prefix(seq!['/', '>'], rest) {
            Ok(Leading { indent: (s - 1) as usize, opener: Opener::Glyph })
        } else if is_prefix(seq!['/', ' '], rest) || rest == seq!['/'] {
            Err(s)
        } else {
            Ok(Leading { indent: (s - 1) as usize, opener: Opener::BareString })
        }
    } else if rest.len() > 0 && rest[0] == '_' {
        Ok(Leading { indent: s as usize, opener: Opener::BareString })
    } else {
        Ok(Leading { indent: s as usize, opener: Opener::Nothing })
    }
}

/// Read a line's indentation and opener.
pub fn leading(line: &[char]) -> (r: Result<Leading, usize>)
    ensures
        match (r, leading_of(line@)) {
            (Ok(a), Ok(b)) => a == b,
            (Err(a), Err(b)) => a as nat == b,
            _ => false,
        },
        r matches Ok(l) ==> l.indent <= line@.len() && l.indent % 2 == 0
            && (l.opener != Opener::Nothing ==> l.indent < line@.len()),
{
    proof {
        reveal_strlit("/<");
        reveal_strlit("/>");
        reveal_strlit("/ ");
        reveal_strlit("/");
        assert("/<"@ =~= seq!['/', '<']);
        assert("/>"@ =~= seq!['/', '>']);
        assert("/ "@ =~= seq!['/', ' ']);
        assert("/"@ =~= seq!['/']);
    }
    let s = crate::text::count_leading_spaces(line);
    proof { crate::text::lemma_leading_spaces_bound(line@); }
    let rest = crate::text::from(line, s);
    if s % 2 == 1 {
        if crate::text::starts_with_str(rest.as_slice(), "/<") || crate::text::starts_with_str(rest.as_slice(), "/>") {
            Ok(Leading { indent: s - 1, opener: Opener::Glyph })
        } else if crate::text::starts_with_str(rest.as_slice(), "/ ") || crate::text::eq_str(rest.as_slice(), "/") {
            Err(s)
        } else {
            Ok(Leading { indent: s - 1, opener: Opener::BareString })
        }
    } else if rest.len() > 0 && rest[0] == '_' {
        Ok(Leading { indent: s, opener: Opener::BareString })
    } else {
        Ok(Leading { indent: s, opener: Opener::Nothing })
    }
}

/// Does `s` open with a nesting marker, `[ ` or `{ `?
pub open spec fn marker_chain_start(s: Seq<char>) -> bool {
    s.len() >= 2 && (s[0] == '[' || s[0] == '{') && s[1] == ' '
}

pub fn starts_with_marker_chain(s: &[char]) -> (r: bool)
    ensures
        r == marker_chain_start(s@),
{
    s.len() >= 2 && (s[0] == '[' || s[0] == '{') && s[1] == ' '
}

/// The first position where `a` followed by `b` begins in `s`, or its length.
pub open spec fn first_pair(s: Seq<char>, a: char, b: char) -> int
    decreases s.len(),
{
    if s.len() < 2 {
        s.len() as int
    } else if s[0] == a && s[1] == b {
        0
    } else {
        1 + first_pair(s.drop_first(), a, b)
    }
}

/// With no `a` in `s`, the pair `a b` is never found.
pub proof fn lemma_first_pair_absent(s: Seq<char>, a: char, b: char)
    requires
        forall|i: int| 0 <= i < s.len() ==> s[i] != a,
    ensures
        first_pair(s, a, b) == s.len(),
    decreases s.len(),
{
    if s.len() >= 2 {
        assert forall|i: int| 0 <= i < s.drop_first().len() implies s.drop_first()[i] != a by {
            assert(s.drop_first()[i] == s[i + 1]);
        }
        lemma_first_pair_absent(s.drop_first(), a, b);
    }
}

pub open spec fn first_double_space(s: Seq<char>) -> int {
    first_pair(s, ' ', ' ')
}

pub proof fn lemma_first_pair(s: Seq<char>, a: char, b: char)
    ensures
        0 <= first_pair(s, a, b) <= s.len(),
        first_pair(s, a, b) < s.len() ==> first_pair(s, a, b) + 1 < s.len()
            && s[first_pair(s, a, b)] == a && s[first_pair(s, a, b) + 1] == b,
        forall|i: int| 0 <= i < first_pair(s, a, b) && i + 1 < s.len()
            ==> !(s[i] == a && #[trigger] s[i + 1] == b),
    decreases s.len(),
{
    if s.len() >= 2 && !(s[0] == a && s[1] == b) {
        lemma_first_pair(s.drop_first(), a, b);
        assert forall|i: int| 0 <= i < first_pair(s, a, b) && i + 1 < s.len()
            implies !(s[i] == a && #[trigger] s[i + 1] == b) by {
            if i > 0 {
                assert(s[i] == s.drop_first()[i - 1]);
                assert(s[i + 1] == s.drop_first()[i]);
            }
        }
    }
}

proof fn lemma_first_pair_unique(s: Seq<char>, a: char, b: char, k: int)
    requires
        0 <= k <= s.len(),
        forall|i: int| 0 <= i < k && i + 1 < s.len() ==> !(s[i] == a && #[trigger] s[i + 1] == b),
        k < s.len() ==> k + 1 < s.len() && s[k] == a && s[k + 1] == b,
        k == s.len() || k + 1 < s.len(),
    ensures
        first_pair(s, a, b) == k || (k + 1 >= s.len() && first_pair(s, a, b) == s.len()),
    decreases s.len(),
{
    lemma_first_pair(s, a, b);
    if s.len() >= 2 && !(s[0] == a && s[1] == b) {
        if k > 0 {
            assert forall|i: int| 0 <= i < k - 1 && i + 1 < s.drop_first().len()
                implies !(s.drop_first()[i] == a && #[trigger] s.drop_first()[i + 1] == b) by {
                assert(s.drop_first()[i] == s[i + 1]);
                assert(s.drop_first()[i + 1] == s[i + 2]);
            }
            lemma_first_pair_unique(s.drop_first(), a, b, k - 1);
        }
    }
}

/// The first place `a` followed by `b` occurs in `s`, or its length.
pub fn first_of(s: &[char], a: char, b: char) -> (r: usize)
    ensures
        r as int == first_pair(s@, a, b),
        r <= s.len(),
{
    let mut i: usize = 0;
    while i < s.len() && s.len() - i >= 2 && !(s[i] == a && s[i + 1] == b)
        invariant
            i <= s.len(),
            forall|j: int| 0 <= j < i && j + 1 < s.len() ==> !(s@[j] == a && #[trigger] s@[j + 1] == b),
        decreases s.len() - i,
    {
        i += 1;
    }
    proof { lemma_first_pair(s@, a, b); }
    if i < s.len() && s.len() - i >= 2 {
        proof { lemma_first_pair_unique(s@, a, b, i as int); }
        i
    } else {
        proof { lemma_first_pair_unique(s@, a, b, s.len() as int); }
        s.len()
    }
}

/// A bare string behind its one-character opener runs to the end of the text.
pub proof fn lemma_bare_run_whole(x: char, s: Seq<char>, o: ParseOptions)
    requires
        bare_string_ok(s, o),
    ensures
        bare_run_end(seq![x] + s) == s.len() + 1,
{
    let t = seq![x] + s;
    assert(t.drop_first() =~= s);
    assert(t[1] == s[0]);
    assert(t[t.len() - 1] == s[s.len() - 1]);
}

/// Where a bare string that begins `s` ends: at the first double space, and
/// never on the single space a line or a separator leaves behind.
pub open spec fn bare_run_end(s: Seq<char>) -> int {
    let k = first_double_space(s);
    if k < s.len() {
        k
    } else if s.len() > 0 && s[s.len() - 1] == ' ' {
        s.len() - 1
    } else {
        s.len() as int
    }
}

/// How far a bare string that begins `s` (its opener included) runs.
pub fn bare_string_run(s: &[char]) -> (r: usize)
    ensures
        r == bare_run_end(s@),
        r <= s.len(),
{
    let k = first_of(s, ' ', ' ');
    if k < s.len() {
        k
    } else if s.len() > 0 && s[s.len() - 1] == ' ' {
        s.len() - 1
    } else {
        s.len()
    }
}

/// Where a line holds a bare string, or a scalar token, and which kind of
/// line it is: the separators a token stops at differ between them.
#[derive(Clone, Copy, Debug, PartialEq, Eq)]
pub enum Packing {
    Undetermined,
    Comma,
    Space,
}

#[derive(Clone, Copy, Debug, PartialEq, Eq)]
pub enum Context {
    ArrayLine(Packing),
    ObjectValue,
    SingleValue,
}

/// Where a number or literal token that begins `s` ends, spaces included:
/// on an array line at `, `, at two spaces, and short of a final comma; as an
/// object value at two spaces; alone, at the end of the line.
pub open spec fn token_limit(s: Seq<char>, ctx: Context) -> int {
    match ctx {
        Context::SingleValue => s.len() as int,
        Context::ObjectValue => first_pair(s, ' ', ' '),
        Context::ArrayLine(_) => {
            let a = first_pair(s, ',', ' ');
            let b = first_pair(s, ' ', ' ');
            let c = if s.len() > 0 && s[s.len() - 1] == ',' { s.len() - 1 } else { s.len() as int };
            let ab = if a < b { a } else { b };
            if ab < c { ab } else { c }
        },
    }
}

/// `token_limit` with the spaces before it taken off.
pub open spec fn token_end_spec(s: Seq<char>, ctx: Context) -> int {
    let e = token_limit(s, ctx);
    e - trailing_spaces(s.subrange(0, e))
}

/// How many spaces close `s`.
pub open spec fn trailing_spaces(s: Seq<char>) -> nat
    decreases s.len(),
{
    if s.len() > 0 && s[s.len() - 1] == ' ' {
        1 + trailing_spaces(s.drop_last())
    } else {
        0
    }
}

proof fn lemma_trailing_spaces_bound(s: Seq<char>)
    ensures
        trailing_spaces(s) <= s.len(),
    decreases s.len(),
{
    if s.len() > 0 && s[s.len() - 1] == ' ' {
        lemma_trailing_spaces_bound(s.drop_last());
    }
}

/// Where the token at the front of `s` ends.
pub fn token_end(s: &[char], ctx: Context) -> (r: usize)
    ensures
        r == token_end_spec(s@, ctx),
        r <= s.len(),
{
    let limit: usize = match ctx {
        Context::SingleValue => s.len(),
        Context::ObjectValue => first_of(s, ' ', ' '),
        Context::ArrayLine(_) => {
            let a = first_of(s, ',', ' ');
            let b = first_of(s, ' ', ' ');
            let c = if s.len() > 0 && s[s.len() - 1] == ',' { s.len() - 1 } else { s.len() };
            let ab = if a < b { a } else { b };
            if ab < c { ab } else { c }
        },
    };
    let mut e = limit;
    while e > 0 && s[e - 1] == ' '
        invariant
            e <= limit <= s.len(),
            (limit - e) + trailing_spaces(s@.subrange(0, e as int)) == trailing_spaces(s@.subrange(0, limit as int)),
        decreases e,
    {
        assert(s@.subrange(0, e as int).drop_last() =~= s@.subrange(0, e - 1));
        e -= 1;
    }
    e
}

/// `s` without its leading and trailing spaces.
pub open spec fn trimmed(s: Seq<char>) -> Seq<char> {
    let t = s.subrange(leading_spaces(s) as int, s.len() as int);
    t.subrange(0, t.len() - trailing_spaces(t))
}

/// Would this line be the closing glyph, but for where it sits or for spaces
/// after it? The glyph alone once spaces on both sides are set aside.
pub fn is_attempted_closer(text: &[char], glyph: &[char]) -> (r: bool)
    ensures
        r == (trimmed(text@) == glyph@),
{
    let a = crate::text::count_leading_spaces(text);
    proof { crate::text::lemma_leading_spaces_bound(text@); }
    let ghost t = text@.subrange(a as int, text@.len() as int);
    let mut b = text.len();
    while b > a && text[b - 1] == ' '
        invariant
            a <= b <= text.len(),
            t == text@.subrange(a as int, text@.len() as int),
            (text.len() - b) + trailing_spaces(text@.subrange(a as int, b as int)) == trailing_spaces(t),
        decreases b,
    {
        assert(text@.subrange(a as int, b as int).drop_last() =~= text@.subrange(a as int, b - 1));
        b -= 1;
    }
    proof {
        lemma_trailing_spaces_bound(t);
        assert(trailing_spaces(text@.subrange(a as int, b as int)) == 0);
        assert(t.subrange(0, t.len() - trailing_spaces(t)) =~= text@.subrange(a as int, b as int));
    }
    let mid = crate::text::slice_of(text, a, b);
    crate::text::eq(mid.as_slice(), glyph)
}


/// Whether `char::is_alphanumeric` holds of `c` (Unicode's Alphabetic or
/// Numeric property, as the standard library's tables have it).
pub uninterp spec fn unicode_alphanumeric(c: char) -> bool;

/// `char::is_alphanumeric`. Nothing is claimed of it beyond being a function
/// of the character.
#[verifier::external_body]
pub fn is_alphanumeric(c: char) -> (r: bool)
    ensures
        r == unicode_alphanumeric(c),
{
    c.is_alphanumeric()
}

/// `prefix`, the character `c`, then `suffix`.
fn framed(prefix: &str, c: char, suffix: &str) -> (r: String)
    ensures
        r@ == prefix@ + seq![c] + suffix@,
{
    let mut m = crate::text::lit(prefix);
    crate::text::push_char(&mut m, c);
    crate::text::append_lit(&mut m, suffix);
    m
}

/// The characters a bare key is built from: letters and numbers, and the
/// punctuation that joins words in names.
pub open spec fn key_char(c: char) -> bool {
    unicode_alphanumeric(c) || c == '_' || c == '-' || c == '.' || c == '$'
}

pub fn is_key_char(c: char) -> (r: bool)
    ensures
        r == key_char(c),
{
    c == '_' || c == '-' || c == '.' || c == '$' || is_alphanumeric(c)
}

/// What a run may not end on: a space, or anything a reader takes for a
/// separator, a quote or a cell edge.
pub open spec fn held_back(c: char, o: ParseOptions) -> bool {
    c == ' ' || o.like(LookalikeSet::Comma, c) || o.like(LookalikeSet::Quote, c) || o.like(LookalikeSet::Pipe, c)
}

pub fn is_held_back(c: char, o: &ParseOptions) -> (r: bool)
    ensures
        r == held_back(c, *o),
{
    c == ' ' || o.is_comma_like(c) || o.is_quote_like(c) || o.is_pipe_like(c)
}

/// The length of the run of key characters that opens `s`.
pub open spec fn key_run(s: Seq<char>) -> nat
    decreases s.len(),
{
    if s.len() > 0 && key_char(s[0]) { 1 + key_run(s.drop_first()) } else { 0 }
}

/// `n` less the held-back characters that end `s[..n]`.
pub open spec fn without_held_back(s: Seq<char>, n: nat, o: ParseOptions) -> nat
    decreases n,
{
    if n > 0 && n <= s.len() && held_back(s[n - 1], o) { without_held_back(s, (n - 1) as nat, o) } else { n }
}

/// Can a bare key begin with `c`?
pub open spec fn key_start(c: char, o: ParseOptions) -> bool {
    !o.like(LookalikeSet::Underscore, c) && !held_back(c, o)
}

/// Where the bare key that opens `s` ends, when one does.
pub open spec fn bare_key_prefix(s: Seq<char>, o: ParseOptions) -> Option<nat> {
    let end = without_held_back(s, key_run(s), o);
    if end > 0 && key_start(s[0], o) { Some(end) } else { None }
}

proof fn lemma_key_run(s: Seq<char>)
    ensures
        key_run(s) <= s.len(),
        forall|i: int| 0 <= i < key_run(s) ==> key_char(#[trigger] s[i]),
        key_run(s) < s.len() ==> !key_char(s[key_run(s) as int]),
    decreases s.len(),
{
    if s.len() > 0 && key_char(s[0]) {
        lemma_key_run(s.drop_first());
        assert forall|i: int| 0 <= i < key_run(s) implies key_char(#[trigger] s[i]) by {
            if i > 0 {
                assert(s[i] == s.drop_first()[i - 1]);
            }
        }
    }
}

proof fn lemma_without_held_back(s: Seq<char>, n: nat, o: ParseOptions)
    requires
        n <= s.len(),
    ensures
        without_held_back(s, n, o) <= n,
        forall|i: int| without_held_back(s, n, o) <= i < n ==> held_back(#[trigger] s[i], o),
        without_held_back(s, n, o) > 0 ==> !held_back(s[without_held_back(s, n, o) - 1], o),
    decreases n,
{
    if n > 0 && held_back(s[n - 1], o) {
        lemma_without_held_back(s, (n - 1) as nat, o);
    }
}

/// Where the bare key that opens `s` ends, when one does.
pub fn parse_bare_key_prefix(s: &[char], o: &ParseOptions) -> (r: Option<usize>)
    ensures
        r matches Some(n) ==> bare_key_prefix(s@, *o) == Some(n as nat) && n <= s.len(),
        r is None ==> bare_key_prefix(s@, *o) is None,
{
    let mut run: usize = 0;
    while run < s.len() && is_key_char(s[run])
        invariant
            run <= s.len(),
            forall|i: int| 0 <= i < run ==> key_char(#[trigger] s@[i]),
        decreases s.len() - run,
    {
        run += 1;
    }
    proof {
        assert(key_run(s@) == run) by {
            lemma_key_run_exact(s@, run as nat);
        }
    }
    let mut end = run;
    while end > 0 && is_held_back(s[end - 1], o)
        invariant
            end <= run <= s.len(),
            without_held_back(s@, end as nat, *o) == without_held_back(s@, run as nat, *o),
        decreases end,
    {
        end -= 1;
    }
    if end > 0 && !o.is_underscore_like(s[0]) && !is_held_back(s[0], o) {
        Some(end)
    } else {
        None
    }
}

proof fn lemma_key_run_exact(s: Seq<char>, n: nat)
    requires
        n <= s.len(),
        forall|i: int| 0 <= i < n ==> key_char(#[trigger] s[i]),
        n < s.len() ==> !key_char(s[n as int]),
    ensures
        key_run(s) == n,
    decreases s.len(),
{
    if n > 0 {
        assert forall|i: int| 0 <= i < n - 1 implies key_char(#[trigger] s.drop_first()[i]) by {
            assert(s.drop_first()[i] == s[i + 1]);
        }
        lemma_key_run_exact(s.drop_first(), (n - 1) as nat);
    }
}

/// Is everything in `s` from `end` on a character a run holds back?
pub fn only_held_back_tail(s: &[char], end: usize, o: &ParseOptions) -> (r: bool)
    requires
        end <= s.len(),
    ensures
        r == (forall|i: int| end <= i < s.len() ==> held_back(#[trigger] s@[i], *o)),
{
    let mut i = end;
    while i < s.len()
        invariant
            end <= i <= s.len(),
            forall|j: int| end <= j < i ==> held_back(#[trigger] s@[j], *o),
        decreases s.len() - i,
    {
        if !is_held_back(s[i], o) {
            return false;
        }
        i += 1;
    }
    true
}

/// Why a bare key's text is not one.
#[derive(Clone, Copy, Debug, PartialEq, Eq)]
pub enum KeyFault {
    Empty,
    LeadingLowLine(char),
    LeadingEdge(char),
    NotKeyCharacter(char),
    TrailingEdge(char),
}

/// The bare key rules, whole.
pub open spec fn bare_key_ok(s: Seq<char>, o: ParseOptions) -> bool {
    &&& s.len() > 0
    &&& key_start(s[0], o)
    &&& forall|i: int| 0 <= i < s.len() ==> key_char(#[trigger] s[i])
    &&& !held_back(s[s.len() - 1], o)
}

/// Check `s` against the bare key rules; the fault names the first broken.
pub fn check_bare_key(s: &[char], o: &ParseOptions) -> (r: Result<(), KeyFault>)
    ensures
        r is Ok <==> bare_key_ok(s@, *o),
{
    if s.len() == 0 {
        return Err(KeyFault::Empty);
    }
    if o.is_underscore_like(s[0]) {
        return Err(KeyFault::LeadingLowLine(s[0]));
    }
    if is_held_back(s[0], o) {
        return Err(KeyFault::LeadingEdge(s[0]));
    }
    let mut i: usize = 0;
    while i < s.len()
        invariant
            i <= s.len(),
            forall|j: int| 0 <= j < i ==> key_char(#[trigger] s@[j]),
        decreases s.len() - i,
    {
        if !is_key_char(s[i]) {
            return Err(KeyFault::NotKeyCharacter(s[i]));
        }
        i += 1;
    }
    if is_held_back(s[s.len() - 1], o) {
        return Err(KeyFault::TrailingEdge(s[s.len() - 1]));
    }
    Ok(())
}

/// The sentence that names a broken bare key rule.
pub open spec fn key_fault_text(f: KeyFault) -> Seq<char> {
    match f {
        KeyFault::Empty => "a bare key cannot be empty"@,
        KeyFault::LeadingLowLine(c) => "a bare key cannot begin with `"@ + seq![c] + "`: keys follow the bare string rules, and that column is where a bare string's opening marker goes. Double quote the key."@,
        KeyFault::LeadingEdge(c) => "a bare key cannot begin with `"@ + seq![c] + "`, which reads as a separator, a quote or a cell edge. Double quote the key."@,
        KeyFault::NotKeyCharacter(c) => "a bare key is made of letters, numbers, `_`, `-`, `.` and `$`, and `"@ + seq![c] + "` is none of them. Double quote the key."@,
        KeyFault::TrailingEdge(c) => "a bare key cannot end with `"@ + seq![c] + "`, which reads as a separator, a quote or a cell edge. Double quote the key."@,
    }
}

/// A sentence saying which bare key rule was broken.
pub fn describe_key_fault(f: KeyFault) -> (r: String)
    ensures
        r@ == key_fault_text(f),
{
    match f {
        KeyFault::Empty => crate::text::lit("a bare key cannot be empty"),
        KeyFault::LeadingLowLine(c) => framed("a bare key cannot begin with `", c, "`: keys follow the bare string rules, and that column is where a bare string's opening marker goes. Double quote the key."),
        KeyFault::LeadingEdge(c) => framed("a bare key cannot begin with `", c, "`, which reads as a separator, a quote or a cell edge. Double quote the key."),
        KeyFault::NotKeyCharacter(c) => framed("a bare key is made of letters, numbers, `_`, `-`, `.` and `$`, and `", c, "` is none of them. Double quote the key."),
        KeyFault::TrailingEdge(c) => framed("a bare key cannot end with `", c, "`, which reads as a separator, a quote or a cell edge. Double quote the key."),
    }
}

/// Where the first colon of `s` is, or its length.
pub open spec fn first_colon(s: Seq<char>) -> int
    decreases s.len(),
{
    if s.len() == 0 {
        0
    } else if s[0] == ':' {
        0
    } else {
        1 + first_colon(s.drop_first())
    }
}

proof fn lemma_first_colon(s: Seq<char>, k: int)
    requires
        0 <= k < s.len(),
        s[k] == ':',
        forall|j: int| 0 <= j < k ==> s[j] != ':',
    ensures
        first_colon(s) == k,
    decreases s.len(),
{
    if k > 0 {
        assert forall|j: int| 0 <= j < k - 1 implies s.drop_first()[j] != ':' by {
            assert(s.drop_first()[j] == s[j + 1]);
        }
        lemma_first_colon(s.drop_first(), k - 1);
    }
}

/// If a colon follows somewhere in `s`, the fault (if any) of the bare key
/// that the text before it would be.
pub fn check_attempted_bare_key(s: &[char], o: &ParseOptions) -> (r: Result<(), KeyFault>)
    ensures
        r is Ok <==> (forall|i: int| 0 <= i < s@.len() ==> s@[i] != ':')
            || bare_key_ok(s@.subrange(0, first_colon(s@)), *o),
{
    match crate::text::find_char(s, ':') {
        None => {
            assert forall|i: int| 0 <= i < s@.len() implies s@[i] != ':' by {
                if s@[i] == ':' {
                    assert(s@.contains(':'));
                }
            }
            Ok(())
        },
        Some(end) => {
            proof { lemma_first_colon(s@, end as int); }
            let key = crate::text::slice_of(s, 0, end);
            check_bare_key(key.as_slice(), o)
        },
    }
}

/// Why a bare string's text is not one.
#[derive(Clone, Copy, Debug, PartialEq, Eq)]
pub enum BareFault {
    Empty,
    LeadingDoubleQuote,
    LeadingLowLine(char),
    LeadingSolidus(char),
    LeadingSpace,
    LeadingEdge(char),
    DoubleSpace,
    Tab,
    TrailingSpace,
    TrailingEdge(char),
}

/// The bare string rules, whole.
pub open spec fn bare_string_ok(s: Seq<char>, o: ParseOptions) -> bool {
    &&& s.len() > 0
    &&& !o.like(LookalikeSet::Underscore, s[0])
    &&& !o.like(LookalikeSet::Foreslash, s[0])
    &&& !held_back(s[0], o)
    &&& first_pair(s, ' ', ' ') == s.len()
    &&& !s.contains('\t')
    &&& !held_back(s[s.len() - 1], o)
}

/// Check `s` against the bare string rules; the fault names the first broken.
pub fn check_bare_string(s: &[char], o: &ParseOptions) -> (r: Result<(), BareFault>)
    ensures
        r is Ok <==> bare_string_ok(s@, *o),
{
    if s.len() == 0 {
        return Err(BareFault::Empty);
    }
    let c = s[0];
    if c == '"' && is_held_back(c, o) {
        return Err(BareFault::LeadingDoubleQuote);
    }
    if o.is_underscore_like(c) {
        return Err(BareFault::LeadingLowLine(c));
    }
    if o.is_foreslash_like(c) {
        return Err(BareFault::LeadingSolidus(c));
    }
    if c == ' ' {
        return Err(BareFault::LeadingSpace);
    }
    if is_held_back(c, o) {
        return Err(BareFault::LeadingEdge(c));
    }
    if first_of(s, ' ', ' ') < s.len() {
        return Err(BareFault::DoubleSpace);
    }
    match crate::text::find_char(s, '\t') {
        Some(_) => { return Err(BareFault::Tab); },
        None => {},
    }
    let last = s[s.len() - 1];
    if last == ' ' {
        return Err(BareFault::TrailingSpace);
    }
    if is_held_back(last, o) {
        return Err(BareFault::TrailingEdge(last));
    }
    Ok(())
}

/// The sentence that names a broken bare string rule.
pub open spec fn bare_fault_text(f: BareFault) -> Seq<char> {
    match f {
        BareFault::Empty => "a bare string cannot be empty; write \"\" for the empty string"@,
        BareFault::LeadingDoubleQuote => "a bare string cannot begin with `\"`. To write a quoted string, delete the one space before the opening \" so the quote follows the colon directly"@,
        BareFault::LeadingLowLine(c) => "a bare string cannot begin with `"@ + seq![c] + "`: a reader takes it for the marker that opens a bare string. Double quote the value."@,
        BareFault::LeadingSolidus(c) => "a bare string cannot begin with `"@ + seq![c] + "`: a reader takes it for a fold marker or an indent offset glyph. Double quote the value."@,
        BareFault::LeadingSpace => "a bare string cannot begin with a space beyond its opening one"@,
        BareFault::LeadingEdge(c) => "a bare string cannot begin with `"@ + seq![c] + "`, which reads as a separator, a quote or a cell edge. Double quote the value."@,
        BareFault::DoubleSpace => "a bare string cannot hold two spaces in a row; double quote the value"@,
        BareFault::Tab => "a bare string cannot hold a tab; double quote the value and write it as \\t"@,
        BareFault::TrailingSpace => "this line ends with spaces that carry nothing -- delete them"@,
        BareFault::TrailingEdge(c) => "a bare string cannot end with `"@ + seq![c] + "`, which reads as a separator, a quote or a cell edge. Double quote the value."@,
    }
}

/// A sentence saying which bare string rule was broken.
pub fn describe_bare_fault(f: BareFault) -> (r: String)
    ensures
        r@ == bare_fault_text(f),
{
    match f {
        BareFault::Empty => crate::text::lit("a bare string cannot be empty; write \"\" for the empty string"),
        BareFault::LeadingDoubleQuote => crate::text::lit("a bare string cannot begin with `\"`. To write a quoted string, delete the one space before the opening \" so the quote follows the colon directly"),
        BareFault::LeadingLowLine(c) => framed("a bare string cannot begin with `", c, "`: a reader takes it for the marker that opens a bare string. Double quote the value."),
        BareFault::LeadingSolidus(c) => framed("a bare string cannot begin with `", c, "`: a reader takes it for a fold marker or an indent offset glyph. Double quote the value."),
        BareFault::LeadingSpace => crate::text::lit("a bare string cannot begin with a space beyond its opening one"),
        BareFault::LeadingEdge(c) => framed("a bare string cannot begin with `", c, "`, which reads as a separator, a quote or a cell edge. Double quote the value."),
        BareFault::DoubleSpace => crate::text::lit("a bare string cannot hold two spaces in a row; double quote the value"),
        BareFault::Tab => crate::text::lit("a bare string cannot hold a tab; double quote the value and write it as \\t"),
        BareFault::TrailingSpace => crate::text::lit("this line ends with spaces that carry nothing -- delete them"),
        BareFault::TrailingEdge(c) => framed("a bare string cannot end with `", c, "`, which reads as a separator, a quote or a cell edge. Double quote the value."),
    }
}

/// The code of `c` with an ASCII capital letter taken to lower case.
pub open spec fn ascii_lower(c: char) -> int {
    if 'A' <= c && c <= 'Z' { (c as u32) + 32 } else { c as u32 as int }
}

/// Do `s` and the lower case literal `l` agree once ASCII case is ignored?
pub open spec fn same_ignoring_case(s: Seq<char>, l: Seq<char>) -> bool {
    s.len() == l.len() && forall|i: int| 0 <= i < s.len() ==> #[trigger] ascii_lower(s[i]) == l[i] as u32
}

/// The literal `token` spells in another case: the first of `true`, `false`,
/// `null` it matches when ASCII case is ignored but does not equal.
pub open spec fn miscased(token: Seq<char>) -> Option<Seq<char>> {
    if same_ignoring_case(token, "true"@) && token != "true"@ {
        Some("true"@)
    } else if same_ignoring_case(token, "false"@) && token != "false"@ {
        Some("false"@)
    } else if same_ignoring_case(token, "null"@) && token != "null"@ {
        Some("null"@)
    } else {
        None
    }
}

/// The literal (`true`, `false`, `null`) that `token` spells in another case.
pub fn miscased_literal(token: &[char]) -> (r: Option<&'static str>)
    ensures
        match r {
            Some(l) => miscased(token@) == Some(l@),
            None => miscased(token@) is None,
        },
{
    if matches_ignoring_case(token, "true") && !crate::text::eq_str(token, "true") {
        return Some("true");
    }
    if matches_ignoring_case(token, "false") && !crate::text::eq_str(token, "false") {
        return Some("false");
    }
    if matches_ignoring_case(token, "null") && !crate::text::eq_str(token, "null") {
        return Some("null");
    }
    None
}

/// Do `s` and the lower case literal `l` agree once ASCII case is ignored?
fn matches_ignoring_case(s: &[char], l: &str) -> (r: bool)
    ensures
        r == same_ignoring_case(s@, l@),
{
    let lc = crate::text::to_chars(l);
    if s.len() != lc.len() {
        return false;
    }
    let mut i: usize = 0;
    while i < s.len()
        invariant
            i <= s.len(),
            s.len() == lc.len(),
            lc@ == l@,
            forall|j: int| 0 <= j < i ==> #[trigger] ascii_lower(s@[j]) == l@[j] as u32,
        decreases s.len() - i,
    {
        let a = s[i];
        let b = lc[i];
        let upper = 'A' <= a && a <= 'Z';
        let agree = if upper { (a as u32) + 32 == (b as u32) } else { (a as u32) == (b as u32) };
        if !agree {
            assert(ascii_lower(s@[i as int]) != l@[i as int] as u32);
            return false;
        }
        i += 1;
    }
    true
}

/// Where the closing quote of a JSON string sits, scanning from `i` and
/// stepping over each backslash escape whole.
pub open spec fn closing_quote(s: Seq<char>, i: int) -> Option<int>
    decreases s.len() - i,
{
    if i < 0 || i >= s.len() {
        None
    } else if s[i] == '"' {
        Some(i)
    } else if s[i] == '\\' {
        if i + 1 >= s.len() { None } else { closing_quote(s, i + 2) }
    } else {
        closing_quote(s, i + 1)
    }
}

/// The string a JSON string literal opening `s` denotes, and the literal's
/// length, when it closes and `serde_json` accepts it.
pub open spec fn json_string_prefix(s: Seq<char>) -> Option<(Seq<char>, nat)> {
    if s.len() > 0 && s[0] == '"' {
        match closing_quote(s, 1) {
            Some(e) => match crate::jsonlit::json_string_value(s.subrange(0, e + 1)) {
                Some(v) => Some((v, (e + 1) as nat)),
                None => None,
            },
            None => None,
        }
    } else {
        None
    }
}

pub proof fn lemma_closing_quote_bound(s: Seq<char>, i: int)
    ensures
        closing_quote(s, i) matches Some(e) ==> i <= e < s.len() && s[e] == '"',
    decreases s.len() - i,
{
    if 0 <= i < s.len() && s[i] != '"' {
        if s[i] == '\\' {
            if i + 1 < s.len() {
                lemma_closing_quote_bound(s, i + 2);
            }
        } else {
            lemma_closing_quote_bound(s, i + 1);
        }
    }
}

/// Read the JSON string literal that opens `s`.
pub fn parse_json_string_prefix(s: &[char]) -> (r: Option<(String, usize)>)
    ensures
        match (r, json_string_prefix(s@)) {
            (Some((v, n)), Some((w, m))) => v@ == w && n as nat == m && n <= s.len(),
            (None, None) => true,
            _ => false,
        },
{
    if s.len() == 0 || s[0] != '"' {
        return None;
    }
    let mut i: usize = 1;
    while i < s.len() && s[i] != '"'
        invariant
            1 <= i <= s.len(),
            closing_quote(s@, i as int) == closing_quote(s@, 1),
        decreases s.len() - i,
    {
        if s[i] == '\\' {
            if i + 1 >= s.len() {
                return None;
            }
            i += 2;
        } else {
            i += 1;
        }
    }
    if i >= s.len() {
        return None;
    }
    let text = crate::text::slice_of(s, 0, i + 1);
    let lit = crate::text::to_string(text.as_slice());
    match crate::jsonlit::json_string_decode(lit.as_str()) {
        Some(v) => Some((v, i + 1)),
        None => None,
    }
}

/// One cell of a table line: its text and where it starts in the line.
pub struct Cell {
    pub text: Vec<char>,
    pub at: usize,
}

/// The cells of `row` from position `i` on, the current cell having started
/// at `start`; `quoted` when a JSON string that opened the cell is still open.
/// Each cell is its start and its text. A pipe outside such a string ends a
/// cell; inside one, `\\` hides the character after it and `"` closes it.
pub open spec fn pipe_cells(row: Seq<char>, i: int, start: int, quoted: bool) -> Option<Seq<(int, Seq<char>)>>
    decreases row.len() - i,
{
    if i >= row.len() {
        if quoted { None } else { Some(seq![(start, row.subrange(start, row.len() as int))]) }
    } else if quoted {
        if row[i] == '\\' {
            pipe_cells(row, if i + 1 < row.len() { i + 2 } else { i + 1 }, start, true)
        } else if row[i] == '"' {
            pipe_cells(row, i + 1, start, false)
        } else {
            pipe_cells(row, i + 1, start, true)
        }
    } else if row[i] == '"' && i == start {
        pipe_cells(row, i + 1, start, true)
    } else if row[i] == '|' {
        match pipe_cells(row, i + 1, i + 1, false) {
            Some(rest) => Some(seq![(start, row.subrange(start, i))] + rest),
            None => None,
        }
    } else {
        pipe_cells(row, i + 1, start, false)
    }
}

/// The cells of a whole table line, or `None` when a quoted cell never closes.
pub open spec fn table_cells(row: Seq<char>) -> Option<Seq<(int, Seq<char>)>> {
    pipe_cells(row, 0, 0, false)
}

pub open spec fn cell_view(c: Cell) -> (int, Seq<char>) {
    (c.at as int, c.text@)
}

spec fn after(done: Seq<(int, Seq<char>)>, o: Option<Seq<(int, Seq<char>)>>) -> Option<Seq<(int, Seq<char>)>> {
    match o {
        Some(rest) => Some(done + rest),
        None => None,
    }
}

/// Split a table line at its pipes. A cell that opens with `"` is a JSON
/// string and its pipes are its own; one left open refuses the line.
pub fn split_pipe_cells(row: &[char]) -> (r: Option<Vec<Cell>>)
    ensures
        match r {
            Some(cells) => table_cells(row@) == Some(cells@.map_values(|c: Cell| cell_view(c))),
            None => table_cells(row@) is None,
        },
        r matches Some(cells) ==> cells@.len() >= 1 && forall|k: int| 0 <= k < cells@.len() ==> {
            let c = #[trigger] cells@[k];
            c.at + c.text@.len() <= row@.len() && c.text@ == row@.subrange(c.at as int, c.at + c.text@.len())
        },
{
    let mut cells: Vec<Cell> = Vec::new();
    let mut start: usize = 0;
    let mut i: usize = 0;
    let mut in_string = false;
    while i < row.len()
        invariant
            start <= i <= row.len(),
            forall|k: int| 0 <= k < cells@.len() ==> {
                let c = #[trigger] cells@[k];
                c.at + c.text@.len() <= row@.len() && c.text@ == row@.subrange(c.at as int, c.at + c.text@.len())
            },
            table_cells(row@) == after(cells@.map_values(|c: Cell| cell_view(c)), pipe_cells(row@, i as int, start as int, in_string)),
        decreases row.len() - i,
    {
        let c = row[i];
        let ghost done = cells@.map_values(|c: Cell| cell_view(c));
        if in_string {
            if c == '\\' {
                if i + 1 < row.len() {
                    i += 2;
                } else {
                    i += 1;
                }
                continue;
            }
            if c == '"' {
                in_string = false;
            }
        } else if c == '"' && i == start {
            in_string = true;
        } else if c == '|' {
            let text = crate::text::slice_of(row, start, i);
            let cell = Cell { text, at: start };
            proof {
                let x = (start as int, row@.subrange(start as int, i as int));
                assert(cell_view(cell) == x);
                match pipe_cells(row@, i + 1, i + 1, false) {
                    Some(rest) => {
                        assert(done + (seq![x] + rest) =~= done.push(x) + rest);
                    },
                    None => {},
                }
            }
            cells.push(cell);
            proof {
                assert(cells@.map_values(|c: Cell| cell_view(c)) =~= done.push(cell_view(cell)));
            }
            start = i + 1;
        }
        i += 1;
    }
    if in_string {
        return None;
    }
    let text = crate::text::slice_of(row, start, row.len());
    let cell = Cell { text, at: start };
    let ghost done = cells@.map_values(|c: Cell| cell_view(c));
    cells.push(cell);
    proof {
        assert(cells@.map_values(|c: Cell| cell_view(c)) =~= done + seq![cell_view(cell)]);
    }
    Some(cells)
}

/// Does `s` look like MINIMAL JSON: a bracket with no space after it?
pub open spec fn minimal_json_candidate(s: Seq<char>) -> bool {
    s.len() >= 2 && (s[0] == '[' || s[0] == '{') && s[1] != ' '
}

pub fn is_minimal_json_candidate(s: &[char]) -> (r: bool)
    ensures
        r == minimal_json_candidate(s@),
{
    s.len() >= 2 && (s[0] == '[' || s[0] == '{') && s[1] != ' '
}

/// Reading `s` from position `i`, `depth` brackets open and inside a string
/// when `quoted`: the position just past the bracket that brings the depth
/// back to zero, if one does. Brackets inside strings do not count, `\\`
/// in a string hides the character after it, and a closer with nothing open
/// ends the search with nothing.
pub open spec fn bracket_close(s: Seq<char>, i: int, depth: int, quoted: bool) -> Option<int>
    decreases s.len() - i,
{
    if i < 0 || i >= s.len() {
        None
    } else if quoted {
        if s[i] == '\\' {
            bracket_close(s, if i + 1 < s.len() { i + 2 } else { i + 1 }, depth, true)
        } else if s[i] == '"' {
            bracket_close(s, i + 1, depth, false)
        } else {
            bracket_close(s, i + 1, depth, true)
        }
    } else if s[i] == '"' {
        bracket_close(s, i + 1, depth, true)
    } else if s[i] == '[' || s[i] == '{' {
        bracket_close(s, i + 1, depth + 1, false)
    } else if s[i] == ']' || s[i] == '}' {
        if depth <= 0 {
            None
        } else if depth == 1 {
            Some(i + 1)
        } else {
            bracket_close(s, i + 1, depth - 1, false)
        }
    } else {
        bracket_close(s, i + 1, depth, false)
    }
}

/// Where the bracket that opens `s` is closed, counting strings as opaque.
pub fn minimal_json_end(s: &[char]) -> (r: Option<usize>)
    ensures
        match r {
            Some(e) => bracket_close(s@, 0, 0, false) == Some(e as int),
            None => bracket_close(s@, 0, 0, false) is None,
        },
        r matches Some(e) ==> 0 < e <= s.len(),
{
    let mut depth: usize = 0;
    let mut i: usize = 0;
    let mut in_string = false;
    while i < s.len()
        invariant
            i <= s.len(),
            depth <= i,
            bracket_close(s@, 0, 0, false) == bracket_close(s@, i as int, depth as int, in_string),
        decreases s.len() - i,
    {
        let c = s[i];
        if in_string {
            if c == '\\' {
                if i + 1 < s.len() {
                    i += 2;
                } else {
                    i += 1;
                }
                continue;
            }
            if c == '"' {
                in_string = false;
            }
        } else if c == '"' {
            in_string = true;
        } else if c == '[' || c == '{' {
            depth += 1;
        } else if c == ']' || c == '}' {
            if depth == 0 {
                return None;
            }
            depth -= 1;
            if depth == 0 {
                return Some(i + 1);
            }
        }
        i += 1;
    }
    None
}

} // verus!

verus! {

/// A text with no `a b` pair, ending on anything but `a`, keeps the pair
/// that follows it where it starts.
pub proof fn lemma_first_pair_after(x: Seq<char>, y: Seq<char>, a: char, b: char)
    requires
        first_pair(x, a, b) == x.len(),
        x.len() == 0 || x[x.len() - 1] != a,
        y.len() >= 2 && y[0] == a && y[1] == b,
    ensures
        first_pair(x + y, a, b) == x.len(),
    decreases x.len(),
{
    let s = x + y;
    assert(first_pair(y, a, b) == 0);
    if x.len() == 0 {
        assert(s =~= y);
    } else if x.len() == 1 {
        assert(s[0] == x[0]);
        assert(s[1] == y[0]);
        assert(s.drop_first() =~= y);
        assert(first_pair(s, a, b) == 1 + first_pair(s.drop_first(), a, b));
    } else {
        assert(s[0] == x[0] && s[1] == x[1]);
        assert(!(x[0] == a && x[1] == b));
        assert(first_pair(x, a, b) == 1 + first_pair(x.drop_first(), a, b));
        assert(s.drop_first() =~= x.drop_first() + y);
        assert(x.drop_first()[x.drop_first().len() - 1] == x[x.len() - 1]);
        lemma_first_pair_after(x.drop_first(), y, a, b);
        assert(first_pair(s, a, b) == 1 + first_pair(s.drop_first(), a, b));
    }
}

/// A prefix of `t` that ends before the first `a b` pair of `t` holds no
/// such pair itself.
pub proof fn lemma_first_pair_absent_pair(v: Seq<char>, t: Seq<char>)
    requires
        v.len() <= first_pair(t, ' ', ' '),
        v =~= t.subrange(0, v.len() as int),
    ensures
        first_pair(v, ' ', ' ') == v.len(),
{
    lemma_first_pair(t, ' ', ' ');
    lemma_first_pair(v, ' ', ' ');
    if first_pair(v, ' ', ' ') < v.len() {
        let k = first_pair(v, ' ', ' ');
        assert(t[k] == v[k] && t[k + 1] == v[k + 1]);
    }
}

/// The closing quote found in a text is found the same way in any longer
/// text that starts with it.
pub proof fn lemma_closing_quote_prefix(v: Seq<char>, tail: Seq<char>, i: int)
    requires
        closing_quote(v, i) is Some,
    ensures
        closing_quote(v + tail, i) == closing_quote(v, i),
    decreases v.len() - i,
{
    let s = v + tail;
    if 0 <= i < v.len() {
        assert(s[i] == v[i]);
        if v[i] != '"' {
            if v[i] == '\\' {
                assert(i + 1 < v.len());
                lemma_closing_quote_prefix(v, tail, i + 2);
            } else {
                lemma_closing_quote_prefix(v, tail, i + 1);
            }
        }
    }
}

/// A JSON string literal that fills a text reads the same at the front of
/// any longer text.
pub proof fn lemma_json_string_prefix_extend(v: Seq<char>, tail: Seq<char>)
    requires
        json_string_prefix(v) matches Some((_, n)) && n == v.len(),
    ensures
        json_string_prefix(v + tail) == json_string_prefix(v),
{
    let e = closing_quote(v, 1).unwrap();
    lemma_closing_quote_prefix(v, tail, 1);
    lemma_closing_quote_bound(v, 1);
    assert((v + tail).subrange(0, e + 1) =~= v.subrange(0, e + 1));
    assert((v + tail)[0] == v[0]);
}

/// The bracket that closes at the end of a text closes there in any longer
/// text that starts with it.
pub proof fn lemma_bracket_close_prefix(v: Seq<char>, tail: Seq<char>, i: int, depth: int, quoted: bool)
    requires
        bracket_close(v, i, depth, quoted) is Some,
    ensures
        bracket_close(v + tail, i, depth, quoted) == bracket_close(v, i, depth, quoted),
    decreases v.len() - i,
{
    let s = v + tail;
    if 0 <= i < v.len() {
        assert(s[i] == v[i]);
        if quoted {
            if v[i] == '\\' {
                if i + 1 < v.len() {
                    lemma_bracket_close_prefix(v, tail, i + 2, depth, true);
                }
            } else if v[i] == '"' {
                lemma_bracket_close_prefix(v, tail, i + 1, depth, false);
            } else {
                lemma_bracket_close_prefix(v, tail, i + 1, depth, true);
            }
        } else if v[i] == '"' {
            lemma_bracket_close_prefix(v, tail, i + 1, depth, true);
        } else if v[i] == '[' || v[i] == '{' {
            lemma_bracket_close_prefix(v, tail, i + 1, depth + 1, false);
        } else if v[i] == ']' || v[i] == '}' {
            if depth > 1 {
                lemma_bracket_close_prefix(v, tail, i + 1, depth - 1, false);
            }
        } else {
            lemma_bracket_close_prefix(v, tail, i + 1, depth, false);
        }
    }
}

} // verus!
