//! Character-level helpers shared by the scanner, the lexical rules and the
//! parser. Everything here works on `char` sequences, so positions are
//! character positions and map one to one onto the columns a reader sees.
use vstd::prelude::*;

verus! {

/// The number of spaces that open `s`.
pub open spec fn leading_spaces(s: Seq<char>) -> nat
    decreases s.len(),
{
    if s.len() > 0 && s[0] == ' ' {
        1 + leading_spaces(s.drop_first())
    } else {
        0
    }
}

/// Every character of `s` is a space.
pub open spec fn all_spaces(s: Seq<char>) -> bool {
    forall|i: int| 0 <= i < s.len() ==> s[i] == ' '
}

pub open spec fn is_prefix(p: Seq<char>, s: Seq<char>) -> bool {
    p.len() <= s.len() && s.subrange(0, p.len() as int) == p
}

/// Decimal spelling of a natural number, most significant digit first.
pub open spec fn decimal(n: nat) -> Seq<char>
    decreases n,
{
    if n < 10 {
        seq![digit_char(n)]
    } else {
        decimal(n / 10).push(digit_char(n % 10))
    }
}

pub open spec fn digit_char(d: nat) -> char {
    if d == 0 { '0' }
    else if d == 1 { '1' }
    else if d == 2 { '2' }
    else if d == 3 { '3' }
    else if d == 4 { '4' }
    else if d == 5 { '5' }
    else if d == 6 { '6' }
    else if d == 7 { '7' }
    else if d == 8 { '8' }
    else { '9' }
}

pub open spec fn hex_char(d: nat) -> char {
    if d < 10 { digit_char(d) }
    else if d == 10 { 'A' }
    else if d == 11 { 'B' }
    else if d == 12 { 'C' }
    else if d == 13 { 'D' }
    else if d == 14 { 'E' }
    else { 'F' }
}

/// Upper-case hexadecimal spelling of `n`, at least four digits wide.
pub open spec fn hex4(n: nat) -> Seq<char>
    decreases n,
{
    if n < 16 {
        seq!['0', '0', '0', hex_char(n)]
    } else if n < 256 {
        seq!['0', '0', hex_char(n / 16), hex_char(n % 16)]
    } else if n < 4096 {
        seq!['0', hex_char(n / 256), hex_char((n / 16) % 16), hex_char(n % 16)]
    } else if n < 65536 {
        seq![hex_char(n / 4096), hex_char((n / 256) % 16), hex_char((n / 16) % 16), hex_char(n % 16)]
    } else {
        hex4(n / 16).push(hex_char(n % 16))
    }
}

/// Append one character to a `String` (std `String::push`).
#[verifier::external_body]
pub fn push_char(s: &mut String, c: char)
    ensures
        final(s)@ == old(s)@.push(c),
{
    s.push(c);
}

/// The characters of `s`, in order.
pub fn to_chars(s: &str) -> (r: Vec<char>)
    ensures
        r@ == s@,
{
    broadcast use vstd::string::group_string_axioms;
    let mut out: Vec<char> = Vec::new();
    for c in iter: s.chars()
        invariant
            iter.seq() == s@,
            out@ == s@.take(iter.index() as int),
    {
        out.push(c);
    }
    assert(out@ =~= s@);
    out
}

/// A `String` holding exactly the characters of `v`.
pub fn to_string(v: &[char]) -> (r: String)
    ensures
        r@ == v@,
{
    let mut s = String::new();
    let mut i: usize = 0;
    while i < v.len()
        invariant
            i <= v.len(),
            s@ == v@.take(i as int),
        decreases v.len() - i,
    {
        push_char(&mut s, v[i]);
        i += 1;
        assert(s@ =~= v@.take(i as int));
    }
    assert(v@.take(v.len() as int) =~= v@);
    s
}

/// Append the characters of `s` to `out`.
pub fn push_str(out: &mut String, s: &[char])
    ensures
        final(out)@ == old(out)@ + s@,
{
    let mut i: usize = 0;
    while i < s.len()
        invariant
            i <= s.len(),
            out@ == old(out)@ + s@.take(i as int),
        decreases s.len() - i,
    {
        push_char(out, s[i]);
        i += 1;
        assert(out@ =~= old(out)@ + s@.take(i as int));
    }
    assert(s@.take(s.len() as int) =~= s@);
}

/// Append the characters of `s` to `out`.
pub fn extend(out: &mut Vec<char>, s: &[char])
    ensures
        final(out)@ == old(out)@ + s@,
{
    let mut i: usize = 0;
    while i < s.len()
        invariant
            i <= s.len(),
            out@ == old(out)@ + s@.take(i as int),
        decreases s.len() - i,
    {
        out.push(s[i]);
        i += 1;
        assert(out@ =~= old(out)@ + s@.take(i as int));
    }
    assert(s@.take(s.len() as int) =~= s@);
}

/// The characters of `s` from `a` up to (not including) `b`.
pub fn slice_of(s: &[char], a: usize, b: usize) -> (r: Vec<char>)
    requires
        a <= b <= s.len(),
    ensures
        r@ == s@.subrange(a as int, b as int),
{
    let mut out: Vec<char> = Vec::new();
    let mut i = a;
    while i < b
        invariant
            a <= i <= b <= s.len(),
            out@ == s@.subrange(a as int, i as int),
        decreases b - i,
    {
        out.push(s[i]);
        i += 1;
        assert(out@ =~= s@.subrange(a as int, i as int));
    }
    out
}

/// The characters of `s` from `a` to the end.
pub fn from(s: &[char], a: usize) -> (r: Vec<char>)
    requires
        a <= s.len(),
    ensures
        r@ == s@.subrange(a as int, s@.len() as int),
{
    slice_of(s, a, s.len())
}

/// Does `s` begin with `p`?
pub fn starts_with(s: &[char], p: &[char]) -> (r: bool)
    ensures
        r == is_prefix(p@, s@),
{
    if p.len() > s.len() {
        return false;
    }
    let mut i: usize = 0;
    while i < p.len()
        invariant
            p.len() <= s.len(),
            i <= p.len(),
            forall|j: int| 0 <= j < i ==> s@[j] == p@[j],
        decreases p.len() - i,
    {
        if s[i] != p[i] {
            assert(s@.subrange(0, p.len() as int)[i as int] != p@[i as int]);
            return false;
        }
        i += 1;
    }
    assert(s@.subrange(0, p.len() as int) =~= p@);
    true
}

/// Do `a` and `b` hold the same characters?
pub fn eq(a: &[char], b: &[char]) -> (r: bool)
    ensures
        r == (a@ == b@),
{
    if a.len() != b.len() {
        return false;
    }
    let r = starts_with(a, b);
    assert(a@.subrange(0, b@.len() as int) =~= a@);
    r
}

/// Does `s` begin with the characters of the literal `p`?
pub fn starts_with_str(s: &[char], p: &str) -> (r: bool)
    ensures
        r == is_prefix(p@, s@),
{
    let pc = to_chars(p);
    starts_with(s, pc.as_slice())
}

/// Are the characters of `s` exactly those of the literal `p`?
pub fn eq_str(s: &[char], p: &str) -> (r: bool)
    ensures
        r == (s@ == p@),
{
    let pc = to_chars(p);
    eq(s, pc.as_slice())
}

pub proof fn lemma_leading_spaces_bound(s: Seq<char>)
    ensures
        leading_spaces(s) <= s.len(),
        forall|i: int| 0 <= i < leading_spaces(s) ==> s[i] == ' ',
        leading_spaces(s) < s.len() ==> s[leading_spaces(s) as int] != ' ',
    decreases s.len(),
{
    if s.len() > 0 && s[0] == ' ' {
        lemma_leading_spaces_bound(s.drop_first());
        assert forall|i: int| 0 <= i < leading_spaces(s) implies s[i] == ' ' by {
            if i > 0 {
                assert(s[i] == s.drop_first()[i - 1]);
            }
        }
    }
}

pub proof fn lemma_leading_spaces_unique(s: Seq<char>, n: nat)
    requires
        n <= s.len(),
        forall|i: int| 0 <= i < n ==> s[i] == ' ',
        n < s.len() ==> s[n as int] != ' ',
    ensures
        leading_spaces(s) == n,
    decreases s.len(),
{
    if n > 0 {
        lemma_leading_spaces_unique(s.drop_first(), (n - 1) as nat);
    }
}

/// How many spaces open `s`.
pub fn count_leading_spaces(s: &[char]) -> (r: usize)
    ensures
        r == leading_spaces(s@),
        r <= s.len(),
{
    let mut i: usize = 0;
    while i < s.len() && s[i] == ' '
        invariant
            i <= s.len(),
            forall|j: int| 0 <= j < i ==> s@[j] == ' ',
        decreases s.len() - i,
    {
        i += 1;
    }
    proof {
        lemma_leading_spaces_unique(s@, i as nat);
    }
    i
}

/// Is every character of `s` a space?
pub fn is_all_spaces(s: &[char]) -> (r: bool)
    ensures
        r == all_spaces(s@),
{
    let mut i: usize = 0;
    while i < s.len()
        invariant
            i <= s.len(),
            forall|j: int| 0 <= j < i ==> s@[j] == ' ',
        decreases s.len() - i,
    {
        if s[i] != ' ' {
            return false;
        }
        i += 1;
    }
    true
}

/// Index of the first `c` in `s`.
pub fn find_char(s: &[char], c: char) -> (r: Option<usize>)
    ensures
        r matches Some(i) ==> i < s.len() && s@[i as int] == c && forall|j: int| 0 <= j < i ==> s@[j] != c,
        r is None ==> !s@.contains(c),
{
    let mut i: usize = 0;
    while i < s.len()
        invariant
            i <= s.len(),
            forall|j: int| 0 <= j < i ==> s@[j] != c,
        decreases s.len() - i,
    {
        if s[i] == c {
            return Some(i);
        }
        i += 1;
    }
    None
}

/// Index of the first occurrence of `p` in `s` at or after `from`.
pub fn find_seq(s: &[char], p: &[char], from: usize) -> (r: Option<usize>)
    requires
        from <= s.len(),
    ensures
        r matches Some(i) ==> from <= i && i + p.len() <= s.len()
            && s@.subrange(i as int, i + p.len()) == p@,
        r is None ==> forall|i: int| from <= i && i + p.len() <= s.len()
            ==> #[trigger] s@.subrange(i, i + p.len()) != p@,
{
    if p.len() > s.len() {
        return None;
    }
    let last = s.len() - p.len();
    if from > last {
        return None;
    }
    let mut i = from;
    loop
        invariant
            p.len() <= s.len(),
            last == s.len() - p.len(),
            from <= i <= last,
            forall|k: int| from <= k < i && k + p.len() <= s.len()
                ==> #[trigger] s@.subrange(k, k + p.len()) != p@,
        decreases last - i,
    {
        let rest = from_slice(s, i);
        if starts_with(rest.as_slice(), p) {
            assert(rest@.subrange(0, p.len() as int) =~= s@.subrange(i as int, i + p.len()));
            return Some(i);
        }
        assert(rest@.subrange(0, p.len() as int) =~= s@.subrange(i as int, i + p.len()));
        if i == last {
            return None;
        }
        i += 1;
    }
}

fn from_slice(s: &[char], a: usize) -> (r: Vec<char>)
    requires
        a <= s.len(),
    ensures
        r@ == s@.subrange(a as int, s@.len() as int),
{
    slice_of(s, a, s.len())
}

pub proof fn lemma_decimal_nonempty(n: nat)
    ensures
        decimal(n).len() >= 1,
    decreases n,
{
    if n >= 10 {
        lemma_decimal_nonempty(n / 10);
    }
}

/// Decimal spelling of `n`.
pub fn usize_to_chars(n: usize) -> (r: Vec<char>)
    ensures
        r@ == decimal(n as nat),
    decreases n,
{
    let d = n % 10;
    let c = if d == 0 { '0' } else if d == 1 { '1' } else if d == 2 { '2' } else if d == 3 { '3' }
        else if d == 4 { '4' } else if d == 5 { '5' } else if d == 6 { '6' } else if d == 7 { '7' }
        else if d == 8 { '8' } else { '9' };
    if n < 10 {
        let mut v: Vec<char> = Vec::new();
        v.push(c);
        assert(v@ =~= seq![c]);
        v
    } else {
        let mut v = usize_to_chars(n / 10);
        v.push(c);
        v
    }
}

/// Decimal spelling of `n`, as a `String`.
pub fn usize_to_string(n: usize) -> (r: String)
    ensures
        r@ == decimal(n as nat),
{
    let v = usize_to_chars(n);
    to_string(v.as_slice())
}

fn hex_digit(d: u32) -> (c: char)
    requires
        d < 16,
    ensures
        c == hex_char(d as nat),
{
    if d == 0 { '0' } else if d == 1 { '1' } else if d == 2 { '2' } else if d == 3 { '3' }
    else if d == 4 { '4' } else if d == 5 { '5' } else if d == 6 { '6' } else if d == 7 { '7' }
    else if d == 8 { '8' } else if d == 9 { '9' } else if d == 10 { 'A' } else if d == 11 { 'B' }
    else if d == 12 { 'C' } else if d == 13 { 'D' } else if d == 14 { 'E' } else { 'F' }
}

/// Upper-case hexadecimal spelling of `n`, at least four digits wide.
pub fn hex4_chars(n: u32) -> (r: Vec<char>)
    ensures
        r@ == hex4(n as nat),
    decreases n,
{
    if n < 65536 {
        let mut v: Vec<char> = Vec::new();
        v.push(hex_digit(n / 4096));
        v.push(hex_digit((n / 256) % 16));
        v.push(hex_digit((n / 16) % 16));
        v.push(hex_digit(n % 16));
        proof {
            if n < 16 {
                assert(n / 4096 == 0 && (n / 256) % 16 == 0 && (n / 16) % 16 == 0);
            } else if n < 256 {
                assert(n / 4096 == 0 && (n / 256) % 16 == 0 && (n / 16) % 16 == n / 16);
            } else if n < 4096 {
                assert(n / 4096 == 0 && (n / 256) % 16 == n / 256);
            }
        }
        assert(v@ =~= hex4(n as nat));
        v
    } else {
        let mut v = hex4_chars(n / 16);
        v.push(hex_digit(n % 16));
        v
    }
}

/// The characters of a literal, as a `String`.
pub fn lit(s: &str) -> (r: String)
    ensures
        r@ == s@,
{
    proof { broadcast use vstd::string::group_string_axioms; }
    s.to_string()
}

/// Append the characters of a literal.
pub fn append_lit(m: &mut String, s: &str)
    ensures
        final(m)@ == old(m)@ + s@,
{
    let c = to_chars(s);
    push_str(m, c.as_slice());
}

/// Append a number in decimal.
pub fn append_num(m: &mut String, n: usize)
    ensures
        final(m)@ == old(m)@ + decimal(n as nat),
{
    let c = usize_to_chars(n);
    push_str(m, c.as_slice());
}

} // verus!
