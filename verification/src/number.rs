//! JSON numbers, kept as their original spelling.
use vstd::prelude::*;
use crate::jsonlit::{json_number, json_number_accepts, is_digit, digit_run};
use crate::text::{to_string, to_chars};

verus! {

/// A JSON number value, stored as its original string representation.
///
/// Validation is delegated to `serde_json`'s number parser, so any string
/// accepted here is a valid JSON number (NaN and infinity have no spelling).
#[derive(Debug, PartialEq, Eq, Hash)]
pub struct Number {
    text: String,
}

/// Error returned when a value is not a valid JSON number.
#[derive(Clone, Debug, PartialEq, Eq)]
pub struct InvalidNumber {
    text: String,
}

impl InvalidNumber {
    /// The text that was refused.
    pub closed spec fn refused(self) -> Seq<char> {
        self.text@
    }

    /// The text that was refused.
    pub fn text(&self) -> (r: &str)
        ensures
            r@ == self.refused(),
    {
        self.text.as_str()
    }

    /// `invalid JSON number: <text>`.
    pub fn display(&self) -> (r: String)
        ensures
            r@ == "invalid JSON number: "@ + self.refused(),
    {
        let mut s = "invalid JSON number: ".to_string();
        proof { broadcast use vstd::string::group_string_axioms; }
        s.append(self.text.as_str());
        s
    }
}

pub open spec fn all_digits(s: Seq<char>) -> bool {
    forall|i: int| 0 <= i < s.len() ==> is_digit(s[i])
}

/// The value of a run of decimal digits.
pub open spec fn digits_value(s: Seq<char>) -> int
    decreases s.len(),
{
    if s.len() == 0 {
        0
    } else {
        digits_value(s.drop_last()) * 10 + (s.last() as int - '0' as int)
    }
}

/// What std's integer parsing reads `s` as: an optional `+` or `-`, then at
/// least one ASCII digit and nothing else.
pub open spec fn integer_text_value(s: Seq<char>) -> Option<int> {
    if s.len() > 0 && (s[0] == '-' || s[0] == '+') {
        let t = s.drop_first();
        if t.len() > 0 && all_digits(t) {
            Some(if s[0] == '-' { -digits_value(t) } else { digits_value(t) })
        } else {
            None
        }
    } else if s.len() > 0 && all_digits(s) {
        Some(digits_value(s))
    } else {
        None
    }
}

/// The decimal spelling of an integer, with a `-` for negatives.
pub open spec fn signed_decimal(v: int) -> Seq<char> {
    if v < 0 {
        seq!['-'] + crate::text::decimal((-v) as nat)
    } else {
        crate::text::decimal(v as nat)
    }
}

pub open spec fn has_exponent_spec(s: Seq<char>) -> bool {
    s.contains('e') || s.contains('E')
}

impl Number {
    /// The written form.
    pub closed spec fn spelling(self) -> Seq<char> {
        self.text@
    }

    #[verifier::type_invariant]
    closed spec fn valid(self) -> bool {
        json_number(self.text@)
    }

    /// Parse `s` as a JSON number, keeping its spelling exactly.
    pub fn parse_str(s: &str) -> (r: Result<Number, InvalidNumber>)
        ensures
            r is Ok <==> json_number(s@),
            r matches Ok(n) ==> n.spelling() == s@,
            r matches Err(e) ==> e.refused() == s@,
    {
        proof { broadcast use vstd::string::group_string_axioms; }
        if json_number_accepts(s) {
            Ok(Number { text: s.to_string() })
        } else {
            Err(InvalidNumber { text: s.to_string() })
        }
    }

    /// A copy with the same spelling.
    pub fn duplicate(&self) -> (r: Number)
        ensures
            r.spelling() == self.spelling(),
    {
        proof { use_type_invariant(self); }
        Number { text: self.text.clone() }
    }

    /// Returns the number as its string representation.
    pub fn as_str(&self) -> (r: &str)
        ensures
            r@ == self.spelling(),
            json_number(r@),
    {
        proof { use_type_invariant(self); }
        self.text.as_str()
    }

    /// Returns the value as an `i64` if the spelling is an integer that fits.
    pub fn as_i64(&self) -> (r: Option<i64>)
        ensures
            r == (match integer_text_value(self.spelling()) {
                Some(v) => if i64::MIN <= v <= i64::MAX { Some(v as i64) } else { None },
                None => None,
            }),
    {
        let chars = to_chars(self.text.as_str());
        match parse_integer(chars.as_slice()) {
            Some(v) => {
                if v >= i64::MIN as i128 && v <= i64::MAX as i128 {
                    Some(v as i64)
                } else {
                    None
                }
            }
            None => None,
        }
    }

    /// Returns the value as a `u64` if the spelling is a non-negative integer
    /// that fits. As std reads an unsigned integer, a `-` sign refuses it,
    /// `-0` included.
    pub fn as_u64(&self) -> (r: Option<u64>)
        ensures
            r == (if self.spelling().len() > 0 && self.spelling()[0] == '-' {
                None
            } else {
                match integer_text_value(self.spelling()) {
                    Some(v) => if 0 <= v <= u64::MAX { Some(v as u64) } else { None },
                    None => None,
                }
            }),
    {
        let chars = to_chars(self.text.as_str());
        if chars.len() > 0 && chars[0] == '-' {
            return None;
        }
        match parse_integer(chars.as_slice()) {
            Some(v) => {
                if v >= 0 && v <= u64::MAX as i128 {
                    Some(v as u64)
                } else {
                    None
                }
            }
            None => None,
        }
    }

    /// Returns `true` if the number was written with an exponent (`e` or `E`).
    pub fn has_exponent(&self) -> (r: bool)
        ensures
            r == has_exponent_spec(self.spelling()),
    {
        let chars = to_chars(self.text.as_str());
        let e = crate::text::find_char(chars.as_slice(), 'e');
        let big = crate::text::find_char(chars.as_slice(), 'E');
        e.is_some() || big.is_some()
    }

    /// Returns `true` if the number was written with a decimal point.
    pub fn has_decimal(&self) -> (r: bool)
        ensures
            r == self.spelling().contains('.'),
    {
        let chars = to_chars(self.text.as_str());
        crate::text::find_char(chars.as_slice(), '.').is_some()
    }

    /// Returns `true` if the number was written with a leading minus sign.
    pub fn is_sign_negative(&self) -> (r: bool)
        ensures
            r == (self.spelling().len() > 0 && self.spelling()[0] == '-'),
    {
        let chars = to_chars(self.text.as_str());
        chars.len() > 0 && chars[0] == '-'
    }

    /// Returns `true` if the written form is exactly an integer and carries
    /// nothing beyond the integer value: no fraction, no exponent, and not `-0`.
    pub fn is_plain_integer(&self) -> (r: bool)
        ensures
            r == (!self.spelling().contains('.') && !has_exponent_spec(self.spelling())
                && self.spelling() != seq!['-', '0']),
    {
        let chars = to_chars(self.text.as_str());
        let minus_zero = chars.len() == 2 && chars[0] == '-' && chars[1] == '0';
        proof {
            if chars@ == seq!['-', '0'] {
                assert(minus_zero);
            }
            if minus_zero {
                assert(chars@ =~= seq!['-', '0']);
            }
        }
        !self.has_decimal() && !self.has_exponent() && !minus_zero
    }

    /// Returns `true` if the number has no fractional or exponent part.
    ///
    /// Superseded: this reads the spelling, not the value (`1e2` answers false
    /// and `-0` answers true). Prefer [`Number::is_plain_integer`], or ask
    /// [`Number::has_decimal`] and [`Number::has_exponent`] directly.
    pub fn is_integer(&self) -> (r: bool)
        ensures
            r == (!self.spelling().contains('.') && !has_exponent_spec(self.spelling())),
    {
        !self.has_decimal() && !self.has_exponent()
    }

    /// The number spelled by an `i64`.
    pub fn from_i64(value: i64) -> (r: Number)
        ensures
            r.spelling() == signed_decimal(value as int),
    {
        let v = spell_i128(value as i128);
        Number::from_spelling(v)
    }

    /// The number spelled by a `u64`.
    pub fn from_u64(value: u64) -> (r: Number)
        ensures
            r.spelling() == signed_decimal(value as int),
    {
        let v = spell_i128(value as i128);
        Number::from_spelling(v)
    }

    /// The number spelled by an `i32`.
    pub fn from_i32(value: i32) -> (r: Number)
        ensures
            r.spelling() == signed_decimal(value as int),
    {
        let v = spell_i128(value as i128);
        Number::from_spelling(v)
    }

    /// The number spelled by a `u32`.
    pub fn from_u32(value: u32) -> (r: Number)
        ensures
            r.spelling() == signed_decimal(value as int),
    {
        let v = spell_i128(value as i128);
        Number::from_spelling(v)
    }

    fn from_spelling(v: Vec<char>) -> (r: Number)
        requires
            json_number(v@),
        ensures
            r.spelling() == v@,
    {
        Number { text: to_string(v.as_slice()) }
    }
}

impl Clone for Number {
    fn clone(&self) -> (r: Number)
        ensures
            r.spelling() == self.spelling(),
    {
        self.duplicate()
    }
}

impl std::str::FromStr for Number {
    type Err = InvalidNumber;

    fn from_str(s: &str) -> (r: Result<Number, InvalidNumber>)
        ensures
            r is Ok <==> json_number(s@),
            r matches Ok(n) ==> n.spelling() == s@,
            r matches Err(e) ==> e.refused() == s@,
    {
        Number::parse_str(s)
    }
}

/// Read `s` the way std reads an integer, with room for any `i64` or `u64`
/// and `None` for magnitudes that exceed both.
pub fn parse_integer(s: &[char]) -> (r: Option<i128>)
    ensures
        r matches Some(v) ==> integer_text_value(s@) == Some(v as int),
        r is None ==> (match integer_text_value(s@) {
            Some(v) => v < i64::MIN || v > u64::MAX,
            None => true,
        }),
{
    if s.len() == 0 {
        return None;
    }
    let neg = s[0] == '-';
    let start: usize = if s[0] == '-' || s[0] == '+' { 1 } else { 0 };
    if start == s.len() {
        return None;
    }
    let ghost t = s@.subrange(start as int, s@.len() as int);
    proof {
        if start == 1 {
            assert(t =~= s@.drop_first());
        } else {
            assert(t =~= s@);
        }
    }
    let mut acc: i128 = 0;
    let mut i = start;
    while i < s.len()
        invariant
            start <= i <= s.len(),
            s.len() > 0,
            start == 1 <==> (s@[0] == '-' || s@[0] == '+'),
            start <= 1,
            neg == (s@[0] == '-'),
            start == 1 ==> t == s@.drop_first(),
            start == 0 ==> t == s@,
            t == s@.subrange(start as int, s@.len() as int),
            all_digits(t.take(i - start)),
            0 <= acc <= 0x2_0000_0000_0000_0000i128,
            acc == digits_value(t.take(i - start)),
        decreases s.len() - i,
    {
        let c = s[i];
        if !('0' <= c && c <= '9') {
            proof {
                assert(t[i - start] == c);
                assert(!all_digits(t));
                if start == 0 {
                    assert(!all_digits(s@));
                }
            }
            return None;
        }
        let d = (c as u32 - '0' as u32) as i128;
        assert(t.take(i + 1 - start).drop_last() =~= t.take(i - start));
        assert(t.take(i + 1 - start).last() == c);
        if acc > 0x1_0000_0000_0000_0000i128 / 10 {
            // Every further digit only makes the value larger.
            proof {
                lemma_digits_value_grows(t, (i + 1 - start) as int);
                assert(digits_value(t.take(i + 1 - start)) == acc * 10 + d);
            }
            return None;
        }
        acc = acc * 10 + d;
        i += 1;
        assert(all_digits(t.take(i - start)));
    }
    assert(t.take(i - start) =~= t);
    if neg {
        Some(-acc)
    } else {
        Some(acc)
    }
}

proof fn lemma_digits_value_nonneg(s: Seq<char>)
    requires
        all_digits(s),
    ensures
        digits_value(s) >= 0,
    decreases s.len(),
{
    if s.len() > 0 {
        assert(all_digits(s.drop_last()));
        lemma_digits_value_nonneg(s.drop_last());
    }
}

/// A run of digits that reaches `k` characters is at least as large as its
/// first `k` digits, so once a prefix is too large so is everything after it.
proof fn lemma_digits_value_grows(t: Seq<char>, k: int)
    requires
        0 <= k <= t.len(),
    ensures
        all_digits(t) ==> digits_value(t) >= digits_value(t.take(k)),
    decreases t.len(),
{
    if all_digits(t) {
        if k < t.len() {
            assert(all_digits(t.drop_last()));
            assert(t.drop_last().take(k) =~= t.take(k));
            lemma_digits_value_grows(t.drop_last(), k);
            lemma_digits_value_nonneg(t.drop_last());
        } else {
            assert(t.take(k) =~= t);
        }
    }
}

fn spell_i128(v: i128) -> (r: Vec<char>)
    requires
        -0x1_0000_0000_0000_0000i128 < v < 0x1_0000_0000_0000_0000i128,
    ensures
        r@ == signed_decimal(v as int),
        json_number(r@),
{
    let mag: u128 = if v < 0 { (-v) as u128 } else { v as u128 };
    let digits = spell_u128(mag);
    proof {
        lemma_decimal_is_json(mag as nat);
        lemma_decimal_digits(mag as nat);
    }
    if v < 0 {
        let mut out: Vec<char> = Vec::new();
        out.push('-');
        crate::text::extend(&mut out, digits.as_slice());
        proof {
            lemma_minus_json(digits@);
        }
        out
    } else {
        digits
    }
}

fn spell_u128(n: u128) -> (r: Vec<char>)
    ensures
        r@ == crate::text::decimal(n as nat),
    decreases n,
{
    let d = (n % 10) as u32;
    let c = if d == 0 { '0' } else if d == 1 { '1' } else if d == 2 { '2' } else if d == 3 { '3' }
        else if d == 4 { '4' } else if d == 5 { '5' } else if d == 6 { '6' } else if d == 7 { '7' }
        else if d == 8 { '8' } else { '9' };
    if n < 10 {
        let mut v: Vec<char> = Vec::new();
        v.push(c);
        assert(v@ =~= seq![c]);
        v
    } else {
        let mut v = spell_u128(n / 10);
        v.push(c);
        v
    }
}

proof fn lemma_decimal_digits(n: nat)
    ensures
        all_digits(crate::text::decimal(n)),
        crate::text::decimal(n).len() >= 1,
        crate::text::decimal(n)[0] == '0' ==> n == 0,
        n == 0 ==> crate::text::decimal(n) == seq!['0'],
    decreases n,
{
    if n >= 10 {
        lemma_decimal_digits(n / 10);
        let s = crate::text::decimal(n);
        assert(s[0] == crate::text::decimal(n / 10)[0]);
    }
}

proof fn lemma_digit_run_all(s: Seq<char>, i: int)
    requires
        0 <= i <= s.len(),
        forall|j: int| i <= j < s.len() ==> is_digit(s[j]),
    ensures
        digit_run(s, i) == s.len() - i,
    decreases s.len() - i,
{
    if i < s.len() {
        lemma_digit_run_all(s, i + 1);
    }
}

proof fn lemma_decimal_is_json(n: nat)
    ensures
        json_number(crate::text::decimal(n)),
{
    let s = crate::text::decimal(n);
    lemma_decimal_digits(n);
    lemma_digit_run_all(s, 0);
    if s[0] == '0' {
        assert(s.len() == 1);
    }
}

proof fn lemma_minus_json(d: Seq<char>)
    requires
        all_digits(d),
        d.len() >= 1,
        d[0] == '0' ==> d.len() == 1,
    ensures
        json_number(seq!['-'] + d),
{
    let s = seq!['-'] + d;
    assert forall|j: int| 1 <= j < s.len() implies is_digit(s[j]) by {
        assert(s[j] == d[j - 1]);
    }
    lemma_digit_run_all(s, 1);
}


/// Where the mantissa of a number's spelling ends: at its exponent marker.
pub open spec fn mantissa_end(s: Seq<char>) -> int
    decreases s.len(),
{
    if s.len() == 0 {
        0
    } else if s[0] == 'e' || s[0] == 'E' {
        0
    } else {
        1 + mantissa_end(s.drop_first())
    }
}

/// How many `0` close `s`.
pub open spec fn trailing_zeros(s: Seq<char>) -> nat
    decreases s.len(),
{
    if s.len() > 0 && s.last() == '0' { 1 + trailing_zeros(s.drop_last()) } else { 0 }
}

/// The trailing zeros of a number's fractional part, when it has a fraction
/// and it ends in any: what `2.50` and `1.00` lose on a trip through `f64`.
pub open spec fn fraction_zeros(s: Seq<char>) -> Option<nat> {
    let m = s.subrange(0, mantissa_end(s));
    if m.contains('.') && trailing_zeros(m) > 0 { Some(trailing_zeros(m)) } else { None }
}

proof fn lemma_mantissa_end(s: Seq<char>)
    ensures
        0 <= mantissa_end(s) <= s.len(),
        mantissa_end(s) < s.len() ==> (s[mantissa_end(s)] == 'e' || s[mantissa_end(s)] == 'E'),
        forall|i: int| 0 <= i < mantissa_end(s) ==> s[i] != 'e' && s[i] != 'E',
    decreases s.len(),
{
    if s.len() > 0 && !(s[0] == 'e' || s[0] == 'E') {
        lemma_mantissa_end(s.drop_first());
        assert forall|i: int| 0 <= i < mantissa_end(s) implies s[i] != 'e' && s[i] != 'E' by {
            if i > 0 {
                assert(s[i] == s.drop_first()[i - 1]);
            }
        }
    }
}

proof fn lemma_mantissa_end_unique(s: Seq<char>, k: int)
    requires
        0 <= k <= s.len(),
        k < s.len() ==> (s[k] == 'e' || s[k] == 'E'),
        forall|i: int| 0 <= i < k ==> s[i] != 'e' && s[i] != 'E',
    ensures
        mantissa_end(s) == k,
    decreases s.len(),
{
    if k > 0 {
        assert forall|i: int| 0 <= i < k - 1 implies s.drop_first()[i] != 'e' && s.drop_first()[i] != 'E' by {
            assert(s.drop_first()[i] == s[i + 1]);
        }
        lemma_mantissa_end_unique(s.drop_first(), k - 1);
    }
}

/// The count of trailing zeros in the fractional part of `digits` (before
/// any exponent), when there are any.
pub fn fraction_trailing_zeros(digits: &str) -> (r: Option<usize>)
    ensures
        match r {
            Some(n) => fraction_zeros(digits@) == Some(n as nat),
            None => fraction_zeros(digits@) is None,
        },
{
    let s = to_chars(digits);
    let mut end: usize = 0;
    while end < s.len() && s[end] != 'e' && s[end] != 'E'
        invariant
            end <= s.len(),
            s@ == digits@,
            forall|i: int| 0 <= i < end ==> s@[i] != 'e' && s@[i] != 'E',
        decreases s.len() - end,
    {
        end += 1;
    }
    proof { lemma_mantissa_end_unique(s@, end as int); }
    let m = crate::text::slice_of(s.as_slice(), 0, end);
    let has_point = crate::text::find_char(m.as_slice(), '.').is_some();
    let mut k = m.len();
    assert(m@.subrange(0, k as int) =~= m@);
    while k > 0 && m[k - 1] == '0'
        invariant
            k <= m@.len(),
            (m@.len() - k) + trailing_zeros(m@.subrange(0, k as int)) == trailing_zeros(m@),
        decreases k,
    {
        assert(m@.subrange(0, k as int).drop_last() =~= m@.subrange(0, k - 1));
        k -= 1;
    }
    proof {
        assert(m@.subrange(0, m@.len() as int) =~= m@);
    }
    let zeros = m.len() - k;
    if has_point && zeros > 0 { Some(zeros) } else { None }
}
} // verus!
