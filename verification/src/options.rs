//! Options: how the parser reads the format, and the render-side style
//! choices that callers and bindings name.
use vstd::prelude::*;
use crate::text::{to_chars, eq_str, push_str, hex4_chars};

verus! {

pub const MIN_WRAP_WIDTH: usize = 20;
pub const DEFAULT_WRAP_WIDTH: usize = 80;

// ---- Lookalike character sets ----
//
// Each set holds the characters a reader could mistake for one of TJSON's
// structural characters. The structural character itself is never in the
// set: a comma IS an array separator, it does not merely resemble one.

/// The COMMALIKE set as the specification enumerates it, less its structural character(s).
pub open spec fn spec_commalike_set() -> Seq<char> {
    seq!['\u{02BB}', '\u{02BC}', '\u{02BD}', '\u{060C}', '\u{066B}', '\u{201A}', '\u{2E32}', '\u{2E34}', '\u{2E41}', '\u{2E4C}', '\u{3001}', '\u{FE50}', '\u{FE51}', '\u{FF0C}', '\u{FF64}']
}

pub fn commalike_set() -> (r: &'static [char])
    ensures
        r@ == spec_commalike_set(),
{
    &['\u{02BB}', '\u{02BC}', '\u{02BD}', '\u{060C}', '\u{066B}', '\u{201A}', '\u{2E32}', '\u{2E34}', '\u{2E41}', '\u{2E4C}', '\u{3001}', '\u{FE50}', '\u{FE51}', '\u{FF0C}', '\u{FF64}']
}

/// The COLONLIKE set as the specification enumerates it, less its structural character(s).
pub open spec fn spec_colonlike_set() -> Seq<char> {
    seq!['\u{02D0}', '\u{02F8}', '\u{0589}', '\u{05C3}', '\u{0703}', '\u{0704}', '\u{0903}', '\u{0A83}', '\u{0C03}', '\u{0C83}', '\u{0D03}', '\u{16EC}', '\u{205A}', '\u{2236}', '\u{2982}', '\u{A789}', '\u{FE13}', '\u{FE30}', '\u{FF1A}']
}

pub fn colonlike_set() -> (r: &'static [char])
    ensures
        r@ == spec_colonlike_set(),
{
    &['\u{02D0}', '\u{02F8}', '\u{0589}', '\u{05C3}', '\u{0703}', '\u{0704}', '\u{0903}', '\u{0A83}', '\u{0C03}', '\u{0C83}', '\u{0D03}', '\u{16EC}', '\u{205A}', '\u{2236}', '\u{2982}', '\u{A789}', '\u{FE13}', '\u{FE30}', '\u{FF1A}']
}

/// The QUOTELIKE set as the specification enumerates it, less its structural character(s).
pub open spec fn spec_quotelike_set() -> Seq<char> {
    seq!['\u{00AB}', '\u{00BB}', '\u{2018}', '\u{2019}', '\u{201A}', '\u{201B}', '\u{201C}', '\u{201D}', '\u{201E}', '\u{201F}', '\u{2039}', '\u{203A}', '\u{2E42}', '\u{300C}', '\u{300D}', '\u{300E}', '\u{300F}', '\u{301D}', '\u{301E}', '\u{301F}', '\u{FE41}', '\u{FE42}', '\u{FE43}', '\u{FE44}', '\u{FF02}', '\u{FF07}', '\u{FF62}', '\u{FF63}']
}

pub fn quotelike_set() -> (r: &'static [char])
    ensures
        r@ == spec_quotelike_set(),
{
    &['\u{00AB}', '\u{00BB}', '\u{2018}', '\u{2019}', '\u{201A}', '\u{201B}', '\u{201C}', '\u{201D}', '\u{201E}', '\u{201F}', '\u{2039}', '\u{203A}', '\u{2E42}', '\u{300C}', '\u{300D}', '\u{300E}', '\u{300F}', '\u{301D}', '\u{301E}', '\u{301F}', '\u{FE41}', '\u{FE42}', '\u{FE43}', '\u{FE44}', '\u{FF02}', '\u{FF07}', '\u{FF62}', '\u{FF63}']
}

/// The PIPELIKE set as the specification enumerates it, less its structural character(s).
pub open spec fn spec_pipelike_set() -> Seq<char> {
    seq!['\u{00A6}', '\u{01C0}', '\u{01C1}', '\u{05C0}', '\u{16C1}', '\u{2016}', '\u{2223}', '\u{2225}', '\u{23D0}', '\u{2502}', '\u{2503}', '\u{2506}', '\u{2507}', '\u{250A}', '\u{250B}', '\u{254E}', '\u{254F}', '\u{2551}', '\u{258F}', '\u{2595}', '\u{2758}', '\u{2759}', '\u{275A}', '\u{2980}', '\u{2AF4}', '\u{2AFC}', '\u{2AFE}', '\u{2AFF}', '\u{2D4F}', '\u{FE31}', '\u{FE33}', '\u{FF5C}', '\u{FFE4}', '\u{1FB70}', '\u{1FB71}', '\u{1FB72}', '\u{1FB73}', '\u{1FB74}', '\u{1FB75}']
}

pub fn pipelike_set() -> (r: &'static [char])
    ensures
        r@ == spec_pipelike_set(),
{
    &['\u{00A6}', '\u{01C0}', '\u{01C1}', '\u{05C0}', '\u{16C1}', '\u{2016}', '\u{2223}', '\u{2225}', '\u{23D0}', '\u{2502}', '\u{2503}', '\u{2506}', '\u{2507}', '\u{250A}', '\u{250B}', '\u{254E}', '\u{254F}', '\u{2551}', '\u{258F}', '\u{2595}', '\u{2758}', '\u{2759}', '\u{275A}', '\u{2980}', '\u{2AF4}', '\u{2AFC}', '\u{2AFE}', '\u{2AFF}', '\u{2D4F}', '\u{FE31}', '\u{FE33}', '\u{FF5C}', '\u{FFE4}', '\u{1FB70}', '\u{1FB71}', '\u{1FB72}', '\u{1FB73}', '\u{1FB74}', '\u{1FB75}']
}

/// The FORESLASHLIKE set as the specification enumerates it, less its structural character(s).
pub open spec fn spec_foreslashlike_set() -> Seq<char> {
    seq!['\u{1735}', '\u{2044}', '\u{2215}', '\u{2571}', '\u{29F8}', '\u{FF0F}']
}

pub fn foreslashlike_set() -> (r: &'static [char])
    ensures
        r@ == spec_foreslashlike_set(),
{
    &['\u{1735}', '\u{2044}', '\u{2215}', '\u{2571}', '\u{29F8}', '\u{FF0F}']
}

/// The UNDERSCORELIKE set as the specification enumerates it, less its structural character(s).
pub open spec fn spec_underscorelike_set() -> Seq<char> {
    seq!['\u{02CD}', '\u{23BC}', '\u{23BD}', '\u{2581}', '\u{FF3F}']
}

pub fn underscorelike_set() -> (r: &'static [char])
    ensures
        r@ == spec_underscorelike_set(),
{
    &['\u{02CD}', '\u{23BC}', '\u{23BD}', '\u{2581}', '\u{FF3F}']
}

/// The SQUAREBRACKETLIKE set as the specification enumerates it, less its structural character(s).
pub open spec fn spec_squarebracketlike_set() -> Seq<char> {
    seq!['\u{2772}', '\u{2773}', '\u{27E6}', '\u{27E7}', '\u{298B}', '\u{298C}', '\u{3010}', '\u{3011}', '\u{301A}', '\u{301B}', '\u{FF3B}', '\u{FF3D}']
}

pub fn squarebracketlike_set() -> (r: &'static [char])
    ensures
        r@ == spec_squarebracketlike_set(),
{
    &['\u{2772}', '\u{2773}', '\u{27E6}', '\u{27E7}', '\u{298B}', '\u{298C}', '\u{3010}', '\u{3011}', '\u{301A}', '\u{301B}', '\u{FF3B}', '\u{FF3D}']
}

/// The CURLYBRACKETLIKE set as the specification enumerates it, less its structural character(s).
pub open spec fn spec_curlybracketlike_set() -> Seq<char> {
    seq!['\u{2774}', '\u{2775}', '\u{FF5B}', '\u{FF5D}']
}

pub fn curlybracketlike_set() -> (r: &'static [char])
    ensures
        r@ == spec_curlybracketlike_set(),
{
    &['\u{2774}', '\u{2775}', '\u{FF5B}', '\u{FF5D}']
}

/// The structural characters each lookalike set stands beside.
pub open spec fn spec_structural_comma() -> Seq<char> { seq![','] }
pub open spec fn spec_structural_colon() -> Seq<char> { seq![':'] }
pub open spec fn spec_structural_pipe() -> Seq<char> { seq!['|'] }
pub open spec fn spec_structural_quote() -> Seq<char> { seq!['"', '\'', '`'] }
pub open spec fn spec_structural_underscore() -> Seq<char> { seq!['_'] }
pub open spec fn spec_structural_foreslash() -> Seq<char> { seq!['/'] }
pub open spec fn spec_structural_squarebracket() -> Seq<char> { seq!['[', ']'] }
pub open spec fn spec_structural_curlybracket() -> Seq<char> { seq!['{', '}'] }

pub fn structural_comma() -> (r: &'static [char]) ensures r@ == spec_structural_comma() { &[','] }
pub fn structural_colon() -> (r: &'static [char]) ensures r@ == spec_structural_colon() { &[':'] }
pub fn structural_pipe() -> (r: &'static [char]) ensures r@ == spec_structural_pipe() { &['|'] }
pub fn structural_quote() -> (r: &'static [char]) ensures r@ == spec_structural_quote() { &['"', '\'', '`'] }
pub fn structural_underscore() -> (r: &'static [char]) ensures r@ == spec_structural_underscore() { &['_'] }
pub fn structural_foreslash() -> (r: &'static [char]) ensures r@ == spec_structural_foreslash() { &['/'] }
pub fn structural_squarebracket() -> (r: &'static [char]) ensures r@ == spec_structural_squarebracket() { &['[', ']'] }
pub fn structural_curlybracket() -> (r: &'static [char]) ensures r@ == spec_structural_curlybracket() { &['{', '}'] }

pub open spec fn is_ascii_char(c: char) -> bool {
    (c as u32) < 128
}

/// A set is acceptable when it holds no structural character, no ASCII, and
/// is strictly increasing (so nothing repeats and membership is well defined
/// for a search that relies on order).
pub open spec fn acceptable_set(structural: Seq<char>, set: Seq<char>) -> bool {
    &&& forall|i: int| 0 <= i < set.len() ==> !structural.contains(#[trigger] set[i])
    &&& forall|i: int| 0 <= i < set.len() ==> !is_ascii_char(#[trigger] set[i])
    &&& forall|i: int| 0 <= i < set.len() - 1 ==> (#[trigger] set[i] as u32) < (set[i + 1] as u32)
}

/// The first index from `k` on whose character `structural` holds, or the
/// length when there is none.
pub open spec fn first_structural(structural: Seq<char>, set: Seq<char>, k: int) -> int
    decreases set.len() - k,
{
    if k < 0 || k >= set.len() { set.len() as int } else if structural.contains(set[k]) { k } else { first_structural(structural, set, k + 1) }
}

/// The first index from `k` on that holds an ASCII character, or the length.
pub open spec fn first_ascii(set: Seq<char>, k: int) -> int
    decreases set.len() - k,
{
    if k < 0 || k >= set.len() { set.len() as int } else if is_ascii_char(set[k]) { k } else { first_ascii(set, k + 1) }
}

/// The first index `i` from `k` on whose character does not come after the
/// one before it, or the length.
pub open spec fn first_unsorted(set: Seq<char>, k: int) -> int
    decreases set.len() - k,
{
    if k < 1 || k >= set.len() { set.len() as int }
    else if (set[k - 1] as u32) >= (set[k] as u32) { k }
    else { first_unsorted(set, k + 1) }
}

/// Why `checked` refuses the lookalike set `set` named `name`: the first
/// member that is structural, else the first that is ASCII, else the first
/// place where the order breaks.
pub open spec fn set_refusal(name: Seq<char>, structural: Seq<char>, set: Seq<char>) -> Seq<char> {
    let k = first_structural(structural, set, 0);
    let a = first_ascii(set, 0);
    let u = first_unsorted(set, 1);
    if k < set.len() {
        "the "@ + name + " set may not contain `"@ + seq![set[k]] + "` (U+"@ + crate::text::hex4(set[k] as u32 as nat)
            + "): that character is not something that resembles TJSON syntax, it is TJSON syntax, and the parser tests for it directly. These sets hold only the characters a reader could mistake for it."@
    } else if a < set.len() {
        "the "@ + name + " set may not contain `"@ + seq![set[a]] + "` (U+"@ + crate::text::hex4(set[a] as u32 as nat)
            + "): lookalike sets hold no ASCII, because an ASCII character is either a structural character in its own right or is not mistakable for one."@
    } else if (set[u - 1] as u32) == (set[u] as u32) {
        "the "@ + name + " set lists U+"@ + crate::text::hex4(set[u - 1] as u32 as nat) + " twice"@
    } else {
        "the "@ + name + " set must be sorted by code point, but U+"@ + crate::text::hex4(set[u - 1] as u32 as nat)
            + " precedes U+"@ + crate::text::hex4(set[u] as u32 as nat)
            + "; an unsorted set would quietly stop matching some of its own members"@
    }
}

/// Would a reader take `ch` for the structural character(s) `structural`,
/// given the lookalike set `set`? ASCII holds no lookalikes, so for ASCII the
/// structural character is the whole question.
pub open spec fn looks_like(structural: Seq<char>, set: Seq<char>, ch: char) -> bool {
    if is_ascii_char(ch) { structural.contains(ch) } else { set.contains(ch) }
}

/// What to do with spaces at the end of a line that carry no data.
#[derive(Clone, Copy, Debug, PartialEq, Eq)]
pub enum TrailingSpaces {
    /// An error naming the spaces. The specification's reading.
    Reject,
    /// Read the line as though they had not been typed.
    Discard,
}

/// What to do with a comment inside a fold.
#[derive(Clone, Copy, Debug, PartialEq, Eq)]
pub enum CommentPlacementError {
    /// An error. The specification's reading.
    Reject,
    /// Lift the comment to the nearest position that exists: the next node.
    Hoist,
    /// Drop the comment and keep the value.
    Discard,
}

/// What to do with a byte order mark at the start of the input.
#[derive(Clone, Copy, Debug, PartialEq, Eq)]
pub enum ByteOrderMark {
    /// An error. The specification's reading: TJSON has no encoding preamble.
    Reject,
    /// Parse from the character after it.
    Discard,
}

/// What to do with a value indented more than one level below its key with
/// no marker chain. Only `Reject` is the specification's reading; the other two
/// exist to exercise the parser.
#[derive(Clone, Copy, Debug, PartialEq, Eq)]
pub enum MissingIndentMarker {
    /// An error: that depth is expressible only with a marker chain.
    Reject,
    /// Read the missing levels off the indentation (not specification compliant).
    Infer,
    /// Require a marker on every level, even a single step.
    RequireForced,
}

/// How little a MULTILINE STRING is allowed to hold. Neither reading accepts
/// an empty one.
#[derive(Clone, Copy, Debug, PartialEq, Eq)]
pub enum MultilineMinimum {
    /// At least one real data EOL.
    Eol,
    /// At least one character, linefeed or not. The specification's reading.
    Character,
}

/// How the parser reads the format: the lookalike sets it refuses in bare
/// strings and keys, and the policies for the places where a reader may be
/// more or less forgiving.
#[derive(Clone, Copy, Debug, PartialEq, Eq)]
pub struct ParseOptions {
    pub start_indent: usize,
    commalike: &'static [char],
    colonlike: &'static [char],
    pipelike: &'static [char],
    quotelike: &'static [char],
    underscorelike: &'static [char],
    foreslashlike: &'static [char],
    squarebracketlike: &'static [char],
    curlybracketlike: &'static [char],
    pub trailing_spaces: TrailingSpaces,
    pub comment_placement_error: CommentPlacementError,
    pub byte_order_mark: ByteOrderMark,
    pub missing_indent_marker: MissingIndentMarker,
    pub multiline_minimum: MultilineMinimum,
}

/// Which lookalike set a question is about.
pub enum LookalikeSet {
    Comma,
    Colon,
    Pipe,
    Quote,
    Underscore,
    Foreslash,
    SquareBracket,
    CurlyBracket,
}

pub open spec fn structural_of(which: LookalikeSet) -> Seq<char> {
    match which {
        LookalikeSet::Comma => spec_structural_comma(),
        LookalikeSet::Colon => spec_structural_colon(),
        LookalikeSet::Pipe => spec_structural_pipe(),
        LookalikeSet::Quote => spec_structural_quote(),
        LookalikeSet::Underscore => spec_structural_underscore(),
        LookalikeSet::Foreslash => spec_structural_foreslash(),
        LookalikeSet::SquareBracket => spec_structural_squarebracket(),
        LookalikeSet::CurlyBracket => spec_structural_curlybracket(),
    }
}

impl ParseOptions {
    /// The lookalike set a question is asked against.
    pub closed spec fn set_of(self, which: LookalikeSet) -> Seq<char> {
        match which {
            LookalikeSet::Comma => self.commalike@,
            LookalikeSet::Colon => self.colonlike@,
            LookalikeSet::Pipe => self.pipelike@,
            LookalikeSet::Quote => self.quotelike@,
            LookalikeSet::Underscore => self.underscorelike@,
            LookalikeSet::Foreslash => self.foreslashlike@,
            LookalikeSet::SquareBracket => self.squarebracketlike@,
            LookalikeSet::CurlyBracket => self.curlybracketlike@,
        }
    }

    /// Would a reader take `ch` for the structural character(s) of `which`?
    pub open spec fn like(self, which: LookalikeSet, ch: char) -> bool {
        looks_like(structural_of(which), self.set_of(which), ch)
    }

    pub closed spec fn trailing_spaces_spec(self) -> TrailingSpaces {
        self.trailing_spaces
    }

    pub closed spec fn comment_placement_error_spec(self) -> CommentPlacementError {
        self.comment_placement_error
    }

    pub closed spec fn byte_order_mark_spec(self) -> ByteOrderMark {
        self.byte_order_mark
    }

    pub closed spec fn missing_indent_marker_spec(self) -> MissingIndentMarker {
        self.missing_indent_marker
    }

    pub closed spec fn multiline_minimum_spec(self) -> MultilineMinimum {
        self.multiline_minimum
    }

    pub closed spec fn start_indent_spec(self) -> usize {
        self.start_indent
    }

    /// The trailing space policy in force.
    pub fn trailing_spaces_policy(&self) -> (r: TrailingSpaces)
        ensures
            r == self.trailing_spaces_spec(),
    {
        self.trailing_spaces
    }

    /// The comment-in-fold policy in force.
    pub fn comment_placement_policy(&self) -> (r: CommentPlacementError)
        ensures
            r == self.comment_placement_error_spec(),
    {
        self.comment_placement_error
    }

    /// The byte order mark policy in force.
    pub fn byte_order_mark_policy(&self) -> (r: ByteOrderMark)
        ensures
            r == self.byte_order_mark_spec(),
    {
        self.byte_order_mark
    }

    /// The missing indent marker policy in force.
    pub fn missing_indent_marker_policy(&self) -> (r: MissingIndentMarker)
        ensures
            r == self.missing_indent_marker_spec(),
    {
        self.missing_indent_marker
    }

    /// The multiline minimum in force.
    pub fn multiline_minimum_policy(&self) -> (r: MultilineMinimum)
        ensures
            r == self.multiline_minimum_spec(),
    {
        self.multiline_minimum
    }

    /// The document's outermost indent.
    pub fn start_indent_value(&self) -> (r: usize)
        ensures
            r == self.start_indent_spec(),
    {
        self.start_indent
    }

    /// `self` and `other` hold the same lookalike sets.
    pub closed spec fn same_sets(self, other: ParseOptions) -> bool {
        &&& self.commalike == other.commalike
        &&& self.colonlike == other.colonlike
        &&& self.pipelike == other.pipelike
        &&& self.quotelike == other.quotelike
        &&& self.underscorelike == other.underscorelike
        &&& self.foreslashlike == other.foreslashlike
        &&& self.squarebracketlike == other.squarebracketlike
        &&& self.curlybracketlike == other.curlybracketlike
    }

    /// `self` and `other` agree on every field but the `which` set.
    pub closed spec fn agrees_except(self, other: ParseOptions, which: LookalikeSet) -> bool {
        &&& self.start_indent == other.start_indent
        &&& self.trailing_spaces == other.trailing_spaces
        &&& self.comment_placement_error == other.comment_placement_error
        &&& self.byte_order_mark == other.byte_order_mark
        &&& self.missing_indent_marker == other.missing_indent_marker
        &&& self.multiline_minimum == other.multiline_minimum
        &&& (which !is Comma ==> self.commalike == other.commalike)
        &&& (which !is Colon ==> self.colonlike == other.colonlike)
        &&& (which !is Pipe ==> self.pipelike == other.pipelike)
        &&& (which !is Quote ==> self.quotelike == other.quotelike)
        &&& (which !is Underscore ==> self.underscorelike == other.underscorelike)
        &&& (which !is Foreslash ==> self.foreslashlike == other.foreslashlike)
        &&& (which !is SquareBracket ==> self.squarebracketlike == other.squarebracketlike)
        &&& (which !is CurlyBracket ==> self.curlybracketlike == other.curlybracketlike)
    }

    /// The specification's own reading: every set exactly as TJSON defines it,
    /// and every policy at its default.
    pub open spec fn is_spec_forms(self) -> bool {
        &&& self.start_indent_spec() == 0
        &&& self.set_of(LookalikeSet::Comma) == spec_commalike_set()
        &&& self.set_of(LookalikeSet::Colon) == spec_colonlike_set()
        &&& self.set_of(LookalikeSet::Pipe) == spec_pipelike_set()
        &&& self.set_of(LookalikeSet::Quote) == spec_quotelike_set()
        &&& self.set_of(LookalikeSet::Underscore) == spec_underscorelike_set()
        &&& self.set_of(LookalikeSet::Foreslash) == spec_foreslashlike_set()
        &&& self.set_of(LookalikeSet::SquareBracket) == spec_squarebracketlike_set()
        &&& self.set_of(LookalikeSet::CurlyBracket) == spec_curlybracketlike_set()
        &&& self.trailing_spaces_spec() == TrailingSpaces::Reject
        &&& self.comment_placement_error_spec() == CommentPlacementError::Reject
        &&& self.byte_order_mark_spec() == ByteOrderMark::Reject
        &&& self.missing_indent_marker_spec() == MissingIndentMarker::Reject
        &&& self.multiline_minimum_spec() == MultilineMinimum::Character
    }

    /// The specification's reading (also `ParseOptions::default()`).
    pub fn spec_forms() -> (r: ParseOptions)
        ensures
            r.is_spec_forms(),
    {
        ParseOptions {
            start_indent: 0,
            commalike: commalike_set(),
            colonlike: colonlike_set(),
            pipelike: pipelike_set(),
            quotelike: quotelike_set(),
            underscorelike: underscorelike_set(),
            foreslashlike: foreslashlike_set(),
            squarebracketlike: squarebracketlike_set(),
            curlybracketlike: curlybracketlike_set(),
            trailing_spaces: TrailingSpaces::Reject,
            comment_placement_error: CommentPlacementError::Reject,
            byte_order_mark: ByteOrderMark::Reject,
            missing_indent_marker: MissingIndentMarker::Reject,
            multiline_minimum: MultilineMinimum::Character,
        }
    }

    /// Accept a lookalike set, or say why it is not one: it may not contain a
    /// structural character, may hold no ASCII, and must be sorted by code
    /// point without repeats.
    pub fn checked(
        set_name: &'static str,
        structural: &'static [char],
        lookalikes: &'static [char],
    ) -> (r: Result<&'static [char], String>)
        ensures
            r is Ok <==> acceptable_set(structural@, lookalikes@),
            r matches Ok(set) ==> set@ == lookalikes@,
            r matches Err(m) ==> m@ == set_refusal(set_name@, structural@, lookalikes@),
    {
        proof { broadcast use vstd::string::group_string_axioms; }
        let mut i: usize = 0;
        while i < lookalikes.len()
            invariant
                i <= lookalikes.len(),
                forall|k: int| 0 <= k < i ==> !structural@.contains(#[trigger] lookalikes@[k]),
                first_structural(structural@, lookalikes@, 0) == first_structural(structural@, lookalikes@, i as int),
            decreases lookalikes.len() - i,
        {
            let ch = lookalikes[i];
            if contains(structural, ch) {
                let mut m = "the ".to_string();
                m.append(set_name);
                m.append(" set may not contain `");
                let cv = to_chars_of(ch);
                push_str(&mut m, cv.as_slice());
                m.append("` (U+");
                let h = hex4_chars(ch as u32);
                push_str(&mut m, h.as_slice());
                m.append("): that character is not something that resembles TJSON syntax, it is TJSON syntax, and the parser tests for it directly. These sets hold only the characters a reader could mistake for it.");
                return Err(m);
            }
            i += 1;
        }
        let mut i: usize = 0;
        while i < lookalikes.len()
            invariant
                i <= lookalikes.len(),
                forall|k: int| 0 <= k < i ==> !is_ascii_char(#[trigger] lookalikes@[k]),
                first_structural(structural@, lookalikes@, 0) == lookalikes@.len(),
                first_ascii(lookalikes@, 0) == first_ascii(lookalikes@, i as int),
            decreases lookalikes.len() - i,
        {
            let ch = lookalikes[i];
            if (ch as u32) < 128 {
                let mut m = "the ".to_string();
                m.append(set_name);
                m.append(" set may not contain `");
                let cv = to_chars_of(ch);
                push_str(&mut m, cv.as_slice());
                m.append("` (U+");
                let h = hex4_chars(ch as u32);
                push_str(&mut m, h.as_slice());
                m.append("): lookalike sets hold no ASCII, because an ASCII character is either a structural character in its own right or is not mistakable for one.");
                return Err(m);
            }
            i += 1;
        }
        let mut i: usize = 1;
        while i < lookalikes.len()
            invariant
                1 <= i,
                i <= lookalikes.len() || lookalikes.len() == 0,
                forall|k: int| 0 <= k < i - 1 && k < lookalikes.len() - 1
                    ==> (#[trigger] lookalikes@[k] as u32) < (lookalikes@[k + 1] as u32),
                first_structural(structural@, lookalikes@, 0) == lookalikes@.len(),
                first_ascii(lookalikes@, 0) == lookalikes@.len(),
                lookalikes.len() > 0 ==> first_unsorted(lookalikes@, 1) == first_unsorted(lookalikes@, i as int),
            decreases lookalikes.len() - i,
        {
            let a = lookalikes[i - 1];
            let b = lookalikes[i];
            if (a as u32) == (b as u32) {
                let mut m = "the ".to_string();
                m.append(set_name);
                m.append(" set lists U+");
                let h = hex4_chars(a as u32);
                push_str(&mut m, h.as_slice());
                m.append(" twice");
                return Err(m);
            }
            if (a as u32) > (b as u32) {
                let mut m = "the ".to_string();
                m.append(set_name);
                m.append(" set must be sorted by code point, but U+");
                let h = hex4_chars(a as u32);
                push_str(&mut m, h.as_slice());
                m.append(" precedes U+");
                let h2 = hex4_chars(b as u32);
                push_str(&mut m, h2.as_slice());
                m.append("; an unsorted set would quietly stop matching some of its own members");
                return Err(m);
            }
            assert((lookalikes@[i - 1] as u32) < (lookalikes@[i as int] as u32));
            i += 1;
        }
        Ok(lookalikes)
    }

    /// Replace the COMMALIKE set. The comma itself cannot be made a member.
    pub fn commalike(self, set: &'static [char]) -> (r: Result<ParseOptions, String>)
        ensures
            r is Ok <==> acceptable_set(spec_structural_comma(), set@),
            r matches Ok(o) ==> o.agrees_except(self, LookalikeSet::Comma) && o.set_of(LookalikeSet::Comma) == set@,
            r matches Err(m) ==> m@ == set_refusal("commalike"@, spec_structural_comma(), set@),
    {
        let s = match Self::checked("commalike", structural_comma(), set) {
            Ok(s) => s,
            Err(m) => { return Err(m); },
        };
        Ok(ParseOptions { commalike: s, ..self })
    }

    /// Replace the COLONLIKE set.
    pub fn colonlike(self, set: &'static [char]) -> (r: Result<ParseOptions, String>)
        ensures
            r is Ok <==> acceptable_set(spec_structural_colon(), set@),
            r matches Ok(o) ==> o.agrees_except(self, LookalikeSet::Colon) && o.set_of(LookalikeSet::Colon) == set@,
            r matches Err(m) ==> m@ == set_refusal("colonlike"@, spec_structural_colon(), set@),
    {
        let s = match Self::checked("colonlike", structural_colon(), set) {
            Ok(s) => s,
            Err(m) => { return Err(m); },
        };
        Ok(ParseOptions { colonlike: s, ..self })
    }

    /// Replace the PIPELIKE set.
    pub fn pipelike(self, set: &'static [char]) -> (r: Result<ParseOptions, String>)
        ensures
            r is Ok <==> acceptable_set(spec_structural_pipe(), set@),
            r matches Ok(o) ==> o.agrees_except(self, LookalikeSet::Pipe) && o.set_of(LookalikeSet::Pipe) == set@,
            r matches Err(m) ==> m@ == set_refusal("pipelike"@, spec_structural_pipe(), set@),
    {
        let s = match Self::checked("pipelike", structural_pipe(), set) {
            Ok(s) => s,
            Err(m) => { return Err(m); },
        };
        Ok(ParseOptions { pipelike: s, ..self })
    }

    /// Replace the QUOTELIKE set.
    pub fn quotelike(self, set: &'static [char]) -> (r: Result<ParseOptions, String>)
        ensures
            r is Ok <==> acceptable_set(spec_structural_quote(), set@),
            r matches Ok(o) ==> o.agrees_except(self, LookalikeSet::Quote) && o.set_of(LookalikeSet::Quote) == set@,
            r matches Err(m) ==> m@ == set_refusal("quotelike"@, spec_structural_quote(), set@),
    {
        let s = match Self::checked("quotelike", structural_quote(), set) {
            Ok(s) => s,
            Err(m) => { return Err(m); },
        };
        Ok(ParseOptions { quotelike: s, ..self })
    }

    /// Replace the FORESLASHLIKE set.
    pub fn foreslashlike(self, set: &'static [char]) -> (r: Result<ParseOptions, String>)
        ensures
            r is Ok <==> acceptable_set(spec_structural_foreslash(), set@),
            r matches Ok(o) ==> o.agrees_except(self, LookalikeSet::Foreslash) && o.set_of(LookalikeSet::Foreslash) == set@,
            r matches Err(m) ==> m@ == set_refusal("foreslashlike"@, spec_structural_foreslash(), set@),
    {
        let s = match Self::checked("foreslashlike", structural_foreslash(), set) {
            Ok(s) => s,
            Err(m) => { return Err(m); },
        };
        Ok(ParseOptions { foreslashlike: s, ..self })
    }

    /// Replace the UNDERSCORELIKE set.
    pub fn underscorelike(self, set: &'static [char]) -> (r: Result<ParseOptions, String>)
        ensures
            r is Ok <==> acceptable_set(spec_structural_underscore(), set@),
            r matches Ok(o) ==> o.agrees_except(self, LookalikeSet::Underscore) && o.set_of(LookalikeSet::Underscore) == set@,
            r matches Err(m) ==> m@ == set_refusal("underscorelike"@, spec_structural_underscore(), set@),
    {
        let s = match Self::checked("underscorelike", structural_underscore(), set) {
            Ok(s) => s,
            Err(m) => { return Err(m); },
        };
        Ok(ParseOptions { underscorelike: s, ..self })
    }

    /// Replace the SQUAREBRACKETLIKE set.
    pub fn squarebracketlike(self, set: &'static [char]) -> (r: Result<ParseOptions, String>)
        ensures
            r is Ok <==> acceptable_set(spec_structural_squarebracket(), set@),
            r matches Ok(o) ==> o.agrees_except(self, LookalikeSet::SquareBracket) && o.set_of(LookalikeSet::SquareBracket) == set@,
            r matches Err(m) ==> m@ == set_refusal("squarebracketlike"@, spec_structural_squarebracket(), set@),
    {
        let s = match Self::checked("squarebracketlike", structural_squarebracket(), set) {
            Ok(s) => s,
            Err(m) => { return Err(m); },
        };
        Ok(ParseOptions { squarebracketlike: s, ..self })
    }

    /// Replace the CURLYBRACKETLIKE set.
    pub fn curlybracketlike(self, set: &'static [char]) -> (r: Result<ParseOptions, String>)
        ensures
            r is Ok <==> acceptable_set(spec_structural_curlybracket(), set@),
            r matches Ok(o) ==> o.agrees_except(self, LookalikeSet::CurlyBracket) && o.set_of(LookalikeSet::CurlyBracket) == set@,
            r matches Err(m) ==> m@ == set_refusal("curlybracketlike"@, spec_structural_curlybracket(), set@),
    {
        let s = match Self::checked("curlybracketlike", structural_curlybracket(), set) {
            Ok(s) => s,
            Err(m) => { return Err(m); },
        };
        Ok(ParseOptions { curlybracketlike: s, ..self })
    }

    /// How to read spaces at the end of a line that carry no data.
    pub fn trailing_spaces(self, policy: TrailingSpaces) -> (r: ParseOptions)
        ensures
            r.same_sets(self),
            r.trailing_spaces_spec() == policy,
            r.comment_placement_error_spec() == self.comment_placement_error_spec(),
            r.byte_order_mark_spec() == self.byte_order_mark_spec(),
            r.missing_indent_marker_spec() == self.missing_indent_marker_spec(),
            r.multiline_minimum_spec() == self.multiline_minimum_spec(),
            r.start_indent_spec() == self.start_indent_spec(),
    {
        ParseOptions { trailing_spaces: policy, ..self }
    }

    /// What to do with a comment that lands inside a fold.
    pub fn comment_placement_error(self, policy: CommentPlacementError) -> (r: ParseOptions)
        ensures
            r.same_sets(self),
            r.comment_placement_error_spec() == policy,
            r.trailing_spaces_spec() == self.trailing_spaces_spec(),
            r.byte_order_mark_spec() == self.byte_order_mark_spec(),
            r.missing_indent_marker_spec() == self.missing_indent_marker_spec(),
            r.multiline_minimum_spec() == self.multiline_minimum_spec(),
            r.start_indent_spec() == self.start_indent_spec(),
    {
        ParseOptions { comment_placement_error: policy, ..self }
    }

    /// What to do with a byte order mark at the start of the input.
    pub fn byte_order_mark(self, policy: ByteOrderMark) -> (r: ParseOptions)
        ensures
            r.same_sets(self),
            r.byte_order_mark_spec() == policy,
            r.trailing_spaces_spec() == self.trailing_spaces_spec(),
            r.comment_placement_error_spec() == self.comment_placement_error_spec(),
            r.missing_indent_marker_spec() == self.missing_indent_marker_spec(),
            r.multiline_minimum_spec() == self.multiline_minimum_spec(),
            r.start_indent_spec() == self.start_indent_spec(),
    {
        ParseOptions { byte_order_mark: policy, ..self }
    }

    /// What to do with a multi-level jump that has no marker chain.
    pub fn missing_indent_marker(self, policy: MissingIndentMarker) -> (r: ParseOptions)
        ensures
            r.same_sets(self),
            r.missing_indent_marker_spec() == policy,
            r.trailing_spaces_spec() == self.trailing_spaces_spec(),
            r.comment_placement_error_spec() == self.comment_placement_error_spec(),
            r.byte_order_mark_spec() == self.byte_order_mark_spec(),
            r.multiline_minimum_spec() == self.multiline_minimum_spec(),
            r.start_indent_spec() == self.start_indent_spec(),
    {
        ParseOptions { missing_indent_marker: policy, ..self }
    }

    /// How little a MULTILINE STRING may hold.
    pub fn multiline_minimum(self, policy: MultilineMinimum) -> (r: ParseOptions)
        ensures
            r.same_sets(self),
            r.multiline_minimum_spec() == policy,
            r.trailing_spaces_spec() == self.trailing_spaces_spec(),
            r.comment_placement_error_spec() == self.comment_placement_error_spec(),
            r.byte_order_mark_spec() == self.byte_order_mark_spec(),
            r.missing_indent_marker_spec() == self.missing_indent_marker_spec(),
            r.start_indent_spec() == self.start_indent_spec(),
    {
        ParseOptions { multiline_minimum: policy, ..self }
    }

    /// Would a reader take `ch` for an array separator?
    pub fn is_comma_like(&self, ch: char) -> (r: bool)
        ensures
            r == self.like(LookalikeSet::Comma, ch),
    {
        if (ch as u32) < 128 {
            proof { lemma_single(',', ch); }
            return ch == ',';
        }
        contains(self.commalike, ch)
    }

    /// Would a reader take `ch` for a key/value separator?
    pub fn is_colon_like(&self, ch: char) -> (r: bool)
        ensures
            r == self.like(LookalikeSet::Colon, ch),
    {
        if (ch as u32) < 128 {
            proof { lemma_single(':', ch); }
            return ch == ':';
        }
        contains(self.colonlike, ch)
    }

    /// Would a reader take `ch` for a table cell delimiter?
    pub fn is_pipe_like(&self, ch: char) -> (r: bool)
        ensures
            r == self.like(LookalikeSet::Pipe, ch),
    {
        if (ch as u32) < 128 {
            proof { lemma_single('|', ch); }
            return ch == '|';
        }
        contains(self.pipelike, ch)
    }

    /// Would a reader take `ch` for a quote?
    pub fn is_quote_like(&self, ch: char) -> (r: bool)
        ensures
            r == self.like(LookalikeSet::Quote, ch),
    {
        if (ch as u32) < 128 {
            return contains(structural_quote(), ch);
        }
        contains(self.quotelike, ch)
    }

    /// Would a reader take `ch` for the solidus that opens a fold or a glyph?
    pub fn is_foreslash_like(&self, ch: char) -> (r: bool)
        ensures
            r == self.like(LookalikeSet::Foreslash, ch),
    {
        if (ch as u32) < 128 {
            proof { lemma_single('/', ch); }
            return ch == '/';
        }
        contains(self.foreslashlike, ch)
    }

    /// Would a reader take `ch` for the low line that may open a bare string?
    pub fn is_underscore_like(&self, ch: char) -> (r: bool)
        ensures
            r == self.like(LookalikeSet::Underscore, ch),
    {
        if (ch as u32) < 128 {
            proof { lemma_single('_', ch); }
            return ch == '_';
        }
        contains(self.underscorelike, ch)
    }

    /// Would a reader take `ch` for a square bracket (either one)?
    pub fn is_square_bracket_like(&self, ch: char) -> (r: bool)
        ensures
            r == self.like(LookalikeSet::SquareBracket, ch),
    {
        if (ch as u32) < 128 {
            return contains(structural_squarebracket(), ch);
        }
        contains(self.squarebracketlike, ch)
    }

    /// Would a reader take `ch` for a curly bracket (either one)?
    pub fn is_curly_bracket_like(&self, ch: char) -> (r: bool)
        ensures
            r == self.like(LookalikeSet::CurlyBracket, ch),
    {
        if (ch as u32) < 128 {
            return contains(structural_curlybracket(), ch);
        }
        contains(self.curlybracketlike, ch)
    }
}

impl Default for ParseOptions {
    fn default() -> (r: ParseOptions)
        ensures
            r.is_spec_forms(),
    {
        ParseOptions::spec_forms()
    }
}

/// Is `c` in `s`?
pub fn contains(s: &[char], c: char) -> (r: bool)
    ensures
        r == s@.contains(c),
{
    let mut i: usize = 0;
    while i < s.len()
        invariant
            i <= s.len(),
            forall|j: int| 0 <= j < i ==> s@[j] != c,
        decreases s.len() - i,
    {
        if s[i] == c {
            return true;
        }
        i += 1;
    }
    false
}

/// A solidus is always foreslash-like, whatever set the reading holds: the
/// sets only ever add characters outside ASCII.
pub proof fn lemma_solidus_is_foreslash_like(o: ParseOptions)
    ensures
        o.like(LookalikeSet::Foreslash, '/'),
{
    assert(spec_structural_foreslash()[0] == '/');
}

/// The structural pipe and low line are always like themselves.
pub proof fn lemma_pipe_and_low_line_are_like(o: ParseOptions)
    ensures
        o.like(LookalikeSet::Pipe, '|'),
        o.like(LookalikeSet::Underscore, '_'),
{
    assert(spec_structural_pipe()[0] == '|');
    assert(spec_structural_underscore()[0] == '_');
}

proof fn lemma_single(c: char, x: char)
    ensures
        seq![c].contains(x) == (c == x),
{
    if c == x {
        assert(seq![c][0] == x);
    }
}

fn to_chars_of(c: char) -> (r: Vec<char>)
    ensures
        r@ == seq![c],
{
    let mut v: Vec<char> = Vec::new();
    v.push(c);
    assert(v@ =~= seq![c]);
    v
}

/// Controls when indent-offset glyphs push content toward the left margin.
#[derive(Clone, Copy, Debug, PartialEq, Eq)]
pub enum IndentGlyphStyle {
    Auto,
    Fixed,
    Off,
}

impl IndentGlyphStyle {
    /// The value a name spells, as the command line and bindings write it.
    pub open spec fn named(s: Seq<char>) -> Option<IndentGlyphStyle> {
        if s == "auto"@ {
            Some(IndentGlyphStyle::Auto)
        } else if s == "fixed"@ {
            Some(IndentGlyphStyle::Fixed)
        } else if s == "none"@ {
            Some(IndentGlyphStyle::Off)
        } else {
            None
        }
    }

    /// Read a name; an unknown one is refused with the list of valid names.
    pub fn parse_name(input: &str) -> (r: Result<IndentGlyphStyle, String>)
        ensures
            match IndentGlyphStyle::named(input@) {
                Some(v) => r == Ok::<IndentGlyphStyle, String>(v),
                None => r is Err,
            },
    {
        proof { broadcast use vstd::string::group_string_axioms; }
        let c = to_chars(input);
        if eq_str(c.as_slice(), "auto") {
            return Ok(IndentGlyphStyle::Auto);
        }
        if eq_str(c.as_slice(), "fixed") {
            return Ok(IndentGlyphStyle::Fixed);
        }
        if eq_str(c.as_slice(), "none") {
            return Ok(IndentGlyphStyle::Off);
        }
        let mut m = "invalid indent glyph style '".to_string();
        m.append(input);
        m.append("' (expected one of: auto, fixed, none)");
        Err(m)
    }
}

impl Default for IndentGlyphStyle {
    fn default() -> (r: IndentGlyphStyle)
        ensures
            r == IndentGlyphStyle::Auto,
    {
        IndentGlyphStyle::Auto
    }
}

impl std::str::FromStr for IndentGlyphStyle {
    type Err = String;

    fn from_str(input: &str) -> (r: Result<IndentGlyphStyle, String>)
        ensures
            match IndentGlyphStyle::named(input@) {
                Some(v) => r == Ok::<IndentGlyphStyle, String>(v),
                None => r is Err,
            },
    {
        IndentGlyphStyle::parse_name(input)
    }
}

/// Controls where the opening indent-offset glyph is placed.
#[derive(Clone, Copy, Debug, PartialEq, Eq)]
pub enum IndentGlyphMarkerStyle {
    Compact,
    Separate,
}

impl IndentGlyphMarkerStyle {
    /// The value a name spells, as the command line and bindings write it.
    pub open spec fn named(s: Seq<char>) -> Option<IndentGlyphMarkerStyle> {
        if s == "compact"@ {
            Some(IndentGlyphMarkerStyle::Compact)
        } else if s == "separate"@ {
            Some(IndentGlyphMarkerStyle::Separate)
        } else {
            None
        }
    }

    /// Read a name; an unknown one is refused with the list of valid names.
    pub fn parse_name(input: &str) -> (r: Result<IndentGlyphMarkerStyle, String>)
        ensures
            match IndentGlyphMarkerStyle::named(input@) {
                Some(v) => r == Ok::<IndentGlyphMarkerStyle, String>(v),
                None => r is Err,
            },
    {
        proof { broadcast use vstd::string::group_string_axioms; }
        let c = to_chars(input);
        if eq_str(c.as_slice(), "compact") {
            return Ok(IndentGlyphMarkerStyle::Compact);
        }
        if eq_str(c.as_slice(), "separate") {
            return Ok(IndentGlyphMarkerStyle::Separate);
        }
        let mut m = "invalid indent glyph marker style '".to_string();
        m.append(input);
        m.append("' (expected one of: compact, separate)");
        Err(m)
    }
}

impl Default for IndentGlyphMarkerStyle {
    fn default() -> (r: IndentGlyphMarkerStyle)
        ensures
            r == IndentGlyphMarkerStyle::Compact,
    {
        IndentGlyphMarkerStyle::Compact
    }
}

/// Controls how wide tables are repositioned toward the left margin.
#[derive(Clone, Copy, Debug, PartialEq, Eq)]
pub enum TableUnindentStyle {
    Left,
    Auto,
    Floating,
    Off,
}

impl TableUnindentStyle {
    /// The value a name spells, as the command line and bindings write it.
    pub open spec fn named(s: Seq<char>) -> Option<TableUnindentStyle> {
        if s == "left"@ {
            Some(TableUnindentStyle::Left)
        } else if s == "auto"@ {
            Some(TableUnindentStyle::Auto)
        } else if s == "floating"@ {
            Some(TableUnindentStyle::Floating)
        } else if s == "none"@ {
            Some(TableUnindentStyle::Off)
        } else {
            None
        }
    }

    /// Read a name; an unknown one is refused with the list of valid names.
    pub fn parse_name(input: &str) -> (r: Result<TableUnindentStyle, String>)
        ensures
            match TableUnindentStyle::named(input@) {
                Some(v) => r == Ok::<TableUnindentStyle, String>(v),
                None => r is Err,
            },
    {
        proof { broadcast use vstd::string::group_string_axioms; }
        let c = to_chars(input);
        if eq_str(c.as_slice(), "left") {
            return Ok(TableUnindentStyle::Left);
        }
        if eq_str(c.as_slice(), "auto") {
            return Ok(TableUnindentStyle::Auto);
        }
        if eq_str(c.as_slice(), "floating") {
            return Ok(TableUnindentStyle::Floating);
        }
        if eq_str(c.as_slice(), "none") {
            return Ok(TableUnindentStyle::Off);
        }
        let mut m = "invalid table unindent style '".to_string();
        m.append(input);
        m.append("' (expected one of: left, auto, floating, none)");
        Err(m)
    }
}

impl Default for TableUnindentStyle {
    fn default() -> (r: TableUnindentStyle)
        ensures
            r == TableUnindentStyle::Auto,
    {
        TableUnindentStyle::Auto
    }
}

impl std::str::FromStr for TableUnindentStyle {
    type Err = String;

    fn from_str(input: &str) -> (r: Result<TableUnindentStyle, String>)
        ensures
            match TableUnindentStyle::named(input@) {
                Some(v) => r == Ok::<TableUnindentStyle, String>(v),
                None => r is Err,
            },
    {
        TableUnindentStyle::parse_name(input)
    }
}

/// Controls how long values are folded across lines with `/ ` continuations.
#[derive(Clone, Copy, Debug, PartialEq, Eq)]
pub enum FoldStyle {
    Auto,
    Fixed,
    Off,
}

impl FoldStyle {
    /// The value a name spells, as the command line and bindings write it.
    pub open spec fn named(s: Seq<char>) -> Option<FoldStyle> {
        if s == "auto"@ {
            Some(FoldStyle::Auto)
        } else if s == "fixed"@ {
            Some(FoldStyle::Fixed)
        } else if s == "none"@ {
            Some(FoldStyle::Off)
        } else {
            None
        }
    }

    /// Read a name; an unknown one is refused with the list of valid names.
    pub fn parse_name(input: &str) -> (r: Result<FoldStyle, String>)
        ensures
            match FoldStyle::named(input@) {
                Some(v) => r == Ok::<FoldStyle, String>(v),
                None => r is Err,
            },
    {
        proof { broadcast use vstd::string::group_string_axioms; }
        let c = to_chars(input);
        if eq_str(c.as_slice(), "auto") {
            return Ok(FoldStyle::Auto);
        }
        if eq_str(c.as_slice(), "fixed") {
            return Ok(FoldStyle::Fixed);
        }
        if eq_str(c.as_slice(), "none") {
            return Ok(FoldStyle::Off);
        }
        let mut m = "invalid fold style '".to_string();
        m.append(input);
        m.append("' (expected one of: auto, fixed, none)");
        Err(m)
    }
}

impl Default for FoldStyle {
    fn default() -> (r: FoldStyle)
        ensures
            r == FoldStyle::Auto,
    {
        FoldStyle::Auto
    }
}

impl std::str::FromStr for FoldStyle {
    type Err = String;

    fn from_str(input: &str) -> (r: Result<FoldStyle, String>)
        ensures
            match FoldStyle::named(input@) {
                Some(v) => r == Ok::<FoldStyle, String>(v),
                None => r is Err,
            },
    {
        FoldStyle::parse_name(input)
    }
}

/// Controls which multiline string format is preferred for strings with newlines.
#[derive(Clone, Copy, Debug, PartialEq, Eq)]
pub enum MultilineStyle {
    Bold,
    Floating,
    BoldFloating,
    BoldLight,
    Transparent,
    Light,
    FoldingQuotes,
}

impl MultilineStyle {
    /// The value a name spells, as the command line and bindings write it.
    pub open spec fn named(s: Seq<char>) -> Option<MultilineStyle> {
        if s == "bold"@ {
            Some(MultilineStyle::Bold)
        } else if s == "floating"@ {
            Some(MultilineStyle::Floating)
        } else if s == "bold-floating"@ {
            Some(MultilineStyle::BoldFloating)
        } else if s == "bold-light"@ {
            Some(MultilineStyle::BoldLight)
        } else if s == "transparent"@ {
            Some(MultilineStyle::Transparent)
        } else if s == "light"@ {
            Some(MultilineStyle::Light)
        } else if s == "folding-quotes"@ {
            Some(MultilineStyle::FoldingQuotes)
        } else {
            None
        }
    }

    /// Read a name; an unknown one is refused with the list of valid names.
    pub fn parse_name(input: &str) -> (r: Result<MultilineStyle, String>)
        ensures
            match MultilineStyle::named(input@) {
                Some(v) => r == Ok::<MultilineStyle, String>(v),
                None => r is Err,
            },
    {
        proof { broadcast use vstd::string::group_string_axioms; }
        let c = to_chars(input);
        if eq_str(c.as_slice(), "bold") {
            return Ok(MultilineStyle::Bold);
        }
        if eq_str(c.as_slice(), "floating") {
            return Ok(MultilineStyle::Floating);
        }
        if eq_str(c.as_slice(), "bold-floating") {
            return Ok(MultilineStyle::BoldFloating);
        }
        if eq_str(c.as_slice(), "bold-light") {
            return Ok(MultilineStyle::BoldLight);
        }
        if eq_str(c.as_slice(), "transparent") {
            return Ok(MultilineStyle::Transparent);
        }
        if eq_str(c.as_slice(), "light") {
            return Ok(MultilineStyle::Light);
        }
        if eq_str(c.as_slice(), "folding-quotes") {
            return Ok(MultilineStyle::FoldingQuotes);
        }
        let mut m = "invalid multiline style '".to_string();
        m.append(input);
        m.append("' (expected one of: bold, floating, bold-floating, bold-light, transparent, light, folding-quotes)");
        Err(m)
    }
}

impl Default for MultilineStyle {
    fn default() -> (r: MultilineStyle)
        ensures
            r == MultilineStyle::Bold,
    {
        MultilineStyle::Bold
    }
}

impl std::str::FromStr for MultilineStyle {
    type Err = String;

    fn from_str(input: &str) -> (r: Result<MultilineStyle, String>)
        ensures
            match MultilineStyle::named(input@) {
                Some(v) => r == Ok::<MultilineStyle, String>(v),
                None => r is Err,
            },
    {
        MultilineStyle::parse_name(input)
    }
}

/// Controls whether bare (unquoted) keys are preferred.
#[derive(Clone, Copy, Debug, PartialEq, Eq)]
pub enum BareStyle {
    Prefer,
    Off,
}

impl BareStyle {
    /// The value a name spells, as the command line and bindings write it.
    pub open spec fn named(s: Seq<char>) -> Option<BareStyle> {
        if s == "prefer"@ {
            Some(BareStyle::Prefer)
        } else if s == "none"@ {
            Some(BareStyle::Off)
        } else {
            None
        }
    }

    /// Read a name; an unknown one is refused with the list of valid names.
    pub fn parse_name(input: &str) -> (r: Result<BareStyle, String>)
        ensures
            match BareStyle::named(input@) {
                Some(v) => r == Ok::<BareStyle, String>(v),
                None => r is Err,
            },
    {
        proof { broadcast use vstd::string::group_string_axioms; }
        let c = to_chars(input);
        if eq_str(c.as_slice(), "prefer") {
            return Ok(BareStyle::Prefer);
        }
        if eq_str(c.as_slice(), "none") {
            return Ok(BareStyle::Off);
        }
        let mut m = "invalid bare style '".to_string();
        m.append(input);
        m.append("' (expected one of: prefer, none)");
        Err(m)
    }
}

impl Default for BareStyle {
    fn default() -> (r: BareStyle)
        ensures
            r == BareStyle::Prefer,
    {
        BareStyle::Prefer
    }
}

impl std::str::FromStr for BareStyle {
    type Err = String;

    fn from_str(input: &str) -> (r: Result<BareStyle, String>)
        ensures
            match BareStyle::named(input@) {
                Some(v) => r == Ok::<BareStyle, String>(v),
                None => r is Err,
            },
    {
        BareStyle::parse_name(input)
    }
}

/// How a string value announces that it is a string: quoted, bare, or bare with a visible marker.
#[derive(Clone, Copy, Debug, PartialEq, Eq)]
pub enum StringStyle {
    Quoted,
    Bare,
    Marked,
}

impl StringStyle {
    /// The value a name spells, as the command line and bindings write it.
    pub open spec fn named(s: Seq<char>) -> Option<StringStyle> {
        if s == "quoted"@ {
            Some(StringStyle::Quoted)
        } else if s == "bare"@ {
            Some(StringStyle::Bare)
        } else if s == "marked"@ {
            Some(StringStyle::Marked)
        } else {
            None
        }
    }

    /// Read a name; an unknown one is refused with the list of valid names.
    pub fn parse_name(input: &str) -> (r: Result<StringStyle, String>)
        ensures
            match StringStyle::named(input@) {
                Some(v) => r == Ok::<StringStyle, String>(v),
                None => r is Err,
            },
    {
        proof { broadcast use vstd::string::group_string_axioms; }
        let c = to_chars(input);
        if eq_str(c.as_slice(), "quoted") {
            return Ok(StringStyle::Quoted);
        }
        if eq_str(c.as_slice(), "bare") {
            return Ok(StringStyle::Bare);
        }
        if eq_str(c.as_slice(), "marked") {
            return Ok(StringStyle::Marked);
        }
        let mut m = "invalid string style '".to_string();
        m.append(input);
        m.append("' (expected one of: quoted, bare, marked)");
        Err(m)
    }
}

impl Default for StringStyle {
    fn default() -> (r: StringStyle)
        ensures
            r == StringStyle::Bare,
    {
        StringStyle::Bare
    }
}

impl std::str::FromStr for StringStyle {
    type Err = String;

    fn from_str(input: &str) -> (r: Result<StringStyle, String>)
        ensures
            match StringStyle::named(input@) {
                Some(v) => r == Ok::<StringStyle, String>(v),
                None => r is Err,
            },
    {
        StringStyle::parse_name(input)
    }
}

/// Controls how a packed array line is put together.
#[derive(Clone, Copy, Debug, PartialEq, Eq)]
pub enum StringArrayStyle {
    Spaces,
    PreferSpaces,
    Comma,
    PreferComma,
    Off,
}

impl StringArrayStyle {
    /// The value a name spells, as the command line and bindings write it.
    pub open spec fn named(s: Seq<char>) -> Option<StringArrayStyle> {
        if s == "spaces"@ {
            Some(StringArrayStyle::Spaces)
        } else if s == "prefer-spaces"@ {
            Some(StringArrayStyle::PreferSpaces)
        } else if s == "comma"@ {
            Some(StringArrayStyle::Comma)
        } else if s == "prefer-comma"@ {
            Some(StringArrayStyle::PreferComma)
        } else if s == "none"@ {
            Some(StringArrayStyle::Off)
        } else {
            None
        }
    }

    /// Read a name; an unknown one is refused with the list of valid names.
    pub fn parse_name(input: &str) -> (r: Result<StringArrayStyle, String>)
        ensures
            match StringArrayStyle::named(input@) {
                Some(v) => r == Ok::<StringArrayStyle, String>(v),
                None => r is Err,
            },
    {
        proof { broadcast use vstd::string::group_string_axioms; }
        let c = to_chars(input);
        if eq_str(c.as_slice(), "spaces") {
            return Ok(StringArrayStyle::Spaces);
        }
        if eq_str(c.as_slice(), "prefer-spaces") {
            return Ok(StringArrayStyle::PreferSpaces);
        }
        if eq_str(c.as_slice(), "comma") {
            return Ok(StringArrayStyle::Comma);
        }
        if eq_str(c.as_slice(), "prefer-comma") {
            return Ok(StringArrayStyle::PreferComma);
        }
        if eq_str(c.as_slice(), "none") {
            return Ok(StringArrayStyle::Off);
        }
        let mut m = "invalid string array style '".to_string();
        m.append(input);
        m.append("' (expected one of: spaces, prefer-spaces, comma, prefer-comma, none)");
        Err(m)
    }
}

impl Default for StringArrayStyle {
    fn default() -> (r: StringArrayStyle)
        ensures
            r == StringArrayStyle::PreferSpaces,
    {
        StringArrayStyle::PreferSpaces
    }
}

impl std::str::FromStr for StringArrayStyle {
    type Err = String;

    fn from_str(input: &str) -> (r: Result<StringArrayStyle, String>)
        ensures
            match StringArrayStyle::named(input@) {
                Some(v) => r == Ok::<StringArrayStyle, String>(v),
                None => r is Err,
            },
    {
        StringArrayStyle::parse_name(input)
    }
}

/// The end-of-line sequence written between output lines.
#[derive(Clone, Copy, Debug, PartialEq, Eq)]
pub enum Eol {
    Lf,
    CrLf,
}

impl Eol {
    /// The value a name spells, as the command line and bindings write it.
    pub open spec fn named(s: Seq<char>) -> Option<Eol> {
        if s == "lf"@ {
            Some(Eol::Lf)
        } else if s == "crlf"@ {
            Some(Eol::CrLf)
        } else {
            None
        }
    }

    /// Read a name; an unknown one is refused with the list of valid names.
    pub fn parse_name(input: &str) -> (r: Result<Eol, String>)
        ensures
            match Eol::named(input@) {
                Some(v) => r == Ok::<Eol, String>(v),
                None => r is Err,
            },
    {
        proof { broadcast use vstd::string::group_string_axioms; }
        let c = to_chars(input);
        if eq_str(c.as_slice(), "lf") {
            return Ok(Eol::Lf);
        }
        if eq_str(c.as_slice(), "crlf") {
            return Ok(Eol::CrLf);
        }
        let mut m = "invalid eol '".to_string();
        m.append(input);
        m.append("' (expected one of: lf, crlf)");
        Err(m)
    }
}

impl Default for Eol {
    fn default() -> (r: Eol)
        ensures
            r == Eol::Lf,
    {
        Eol::Lf
    }
}

impl std::str::FromStr for Eol {
    type Err = String;

    fn from_str(input: &str) -> (r: Result<Eol, String>)
        ensures
            match Eol::named(input@) {
                Some(v) => r == Ok::<Eol, String>(v),
                None => r is Err,
            },
    {
        Eol::parse_name(input)
    }
}

impl Eol {
    /// The line-terminator text written between output lines (`"\n"` for `Lf`,
    /// `"\r\n"` for `CrLf`).
    pub fn as_str(self) -> (r: &'static str)
        ensures
            r@ == (match self {
                Eol::Lf => seq!['\n'],
                Eol::CrLf => seq!['\r', '\n'],
            }),
    {
        match self {
            Eol::Lf => {
                let s = "\n";
                proof { reveal_strlit("\n"); }
                s
            }
            Eol::CrLf => {
                let s = "\r\n";
                proof { reveal_strlit("\r\n"); }
                s
            }
        }
    }
}

/// An option that existed in a previous release and was renamed or removed,
/// paired with a migration hint.
pub struct RetiredOption {
    pub name: &'static str,
    pub hint: &'static str,
}

/// The retired option names and what replaced them.
pub fn retired_options() -> (r: Vec<RetiredOption>)
    ensures
        r@.len() == 1,
        r@[0].name@ == "tableMinCols"@,
        r@[0].hint@ == "tableMinCols has been renamed to tableMinColumns"@,
{
    let mut v: Vec<RetiredOption> = Vec::new();
    v.push(RetiredOption {
        name: "tableMinCols",
        hint: "tableMinCols has been renamed to tableMinColumns",
    });
    v
}

/// Look up the migration hint for a retired option field name.
pub fn retired_option_hint(field: &str) -> (r: Option<&'static str>)
    ensures
        field@ == "tableMinCols"@ ==> (r matches Some(h) && h@ == "tableMinCols has been renamed to tableMinColumns"@),
        field@ != "tableMinCols"@ ==> r is None,
{
    let table = retired_options();
    let f = to_chars(field);
    let mut i: usize = 0;
    while i < table.len()
        invariant
            i <= table.len(),
            table@.len() == 1,
            table@[0].name@ == "tableMinCols"@,
            table@[0].hint@ == "tableMinCols has been renamed to tableMinColumns"@,
            f@ == field@,
            forall|k: int| 0 <= k < i ==> table@[k].name@ != field@,
        decreases table.len() - i,
    {
        if eq_str(f.as_slice(), table[i].name) {
            return Some(table[i].hint);
        }
        i += 1;
    }
    None
}

} // verus!
