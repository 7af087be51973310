//! Reading TJSON text into a `Document`.
//!
//! The reader walks the document line by line. Indentation carries structure:
//! an object's entries sit at one even indent, an array's elements at one
//! more level, and markers (`[ `, `{ `) name containers the indentation
//! implies. A bare string's opening quote is a single space (or `_`) standing
//! in the column where its indent ends, so that column never counts as indent.
use vstd::prelude::*;
use crate::document::{DocNode, DocEntry, Document, Comment, RawComment, StringForm, KeyForm, BareForm, MultilineFlavor};
use crate::error::ParseError;
use crate::lex::{
    Leading, Opener, Context, Packing, Cell, leading, starts_with_marker_chain, bare_string_run,
    token_end, is_attempted_closer, check_bare_string, check_bare_key, describe_bare_fault,
    describe_key_fault, parse_bare_key_prefix, only_held_back_tail, parse_json_string_prefix,
    split_pipe_cells, is_minimal_json_candidate, minimal_json_end, miscased_literal, BareFault,
    check_attempted_bare_key, is_alphanumeric,
};
use crate::options::{ParseOptions, TrailingSpaces, CommentPlacementError, MissingIndentMarker, MultilineMinimum, ByteOrderMark};
use crate::value::Value;
use crate::number::Number;
use crate::text::{lit, append_lit, append_num, to_string, count_leading_spaces, slice_of, from, starts_with_str, eq_str, push_str};

verus! {

/// How many containers deep a document may nest: `serde_json`'s recursion
/// limit, so that MINIMAL JSON inside a document and the document itself stop
/// at the same depth.
pub const MAX_DEPTH: usize = 128;

/// The lines of the document being read, and the reading in force.
pub(crate) struct Src {
    pub(crate) lines: Vec<Vec<char>>,
    pub(crate) opts: ParseOptions,
    pub(crate) start: usize,
}

/// One ` /<` frame: how far it shifts file indents, and the file column its
/// ` />` closer must sit at.
pub(crate) struct Frame {
    pub(crate) offset: usize,
    pub(crate) close: usize,
}

/// Where the reading is: the current line, how many containers deep, the open
/// indent offset frames, and the comments seen but not yet attached.
pub(crate) struct Cur {
    pub(crate) line: usize,
    pub(crate) depth: usize,
    pub(crate) frames: Vec<Frame>,
    pub(crate) pending: Vec<RawComment>,
}

pub(crate) open spec fn ok(src: &Src, c: &Cur) -> bool {
    c.line <= src.lines@.len() && c.depth <= MAX_DEPTH && src.lines@.len() <= usize::MAX
}

/// `e` names a place in the text, and a line it quotes is the line it names.
pub(crate) open spec fn placed(src: &Src, e: ParseError) -> bool {
    &&& e.located()
    &&& e.source_spec() matches Some(t) ==> e.line_spec() <= src.lines@.len() && t == src.lines@[e.line_spec() - 1]@
}

/// A refusal, if that is what `r` is, is `placed`.
pub(crate) open spec fn err_located<T>(src: &Src, r: Result<T, ParseError>) -> bool {
    r matches Err(e) ==> placed(src, e)
}

/// The reading only ever moves forward, and leaves the depth where it found it.
pub(crate) open spec fn moved(src: &Src, a: &Cur, b: &Cur) -> bool {
    ok(src, b) && a.line <= b.line && a.depth == b.depth
}

// ---- Errors ----

fn source_of(src: &Src, i: usize) -> (r: Option<String>)
    ensures
        r is Some <==> i < src.lines@.len(),
        r matches Some(t) ==> i < src.lines@.len() && t@ == src.lines@[i as int]@,
{
    if i < src.lines.len() {
        Some(to_string(src.lines[i].as_slice()))
    } else {
        None
    }
}

/// The last line with anything on it, and its length.
fn last_written_line(src: &Src) -> (r: Option<(usize, usize)>)
    ensures
        match r {
            Some((l, n)) => l < src.lines@.len() && n == src.lines@[l as int]@.len() && n > 0
                && forall|j: int| l < j < src.lines@.len() ==> #[trigger] src.lines@[j]@.len() == 0,
            None => forall|j: int| 0 <= j < src.lines@.len() ==> #[trigger] src.lines@[j]@.len() == 0,
        },
{
    let mut i = src.lines.len();
    while i > 0
        invariant
            i <= src.lines@.len(),
            forall|j: int| i <= j < src.lines@.len() ==> #[trigger] src.lines@[j]@.len() == 0,
        decreases i,
    {
        if src.lines[i - 1].len() > 0 {
            return Some((i - 1, src.lines[i - 1].len()));
        }
        i -= 1;
    }
    None
}

/// An error at character `at` (0-based) of line `line_index` (0-based). A line
/// past the end reports at the end of the last line anyone wrote.
fn error_at_line(src: &Src, line_index: usize, at: usize, msg: String) -> (r: ParseError)
    ensures
        placed(src, r),
        r.message_spec() == msg@,
        line_index < src.lines@.len() ==> r.line_spec() == line_index + 1
            && r.column_spec() == (if at < usize::MAX { at + 1 } else { at as int }),
{
    if line_index < src.lines.len() {
        ParseError::new(line_index + 1, at.saturating_add(1), msg, source_of(src, line_index))
    } else {
        match last_written_line(src) {
            Some((l, len)) => ParseError::new(l + 1, len.saturating_add(1), msg, source_of(src, l)),
            None => ParseError::new(line_index.saturating_add(1), at.saturating_add(1), msg, None),
        }
    }
}

/// An error at the first non-space character of the current line.
fn error_current(src: &Src, c: &Cur, msg: String) -> (r: ParseError)
    ensures
        placed(src, r),
        r.message_spec() == msg@,
        c.line < src.lines@.len() && !crate::text::all_spaces(src.lines@[c.line as int]@)
            ==> r.line_spec() == c.line + 1 && r.column_spec() == crate::text::leading_spaces(src.lines@[c.line as int]@) + 1,
{
    proof {
        if c.line < src.lines@.len() {
            crate::text::lemma_leading_spaces_bound(src.lines@[c.line as int]@);
        }
    }
    let at = if c.line < src.lines.len() { count_leading_spaces(src.lines[c.line].as_slice()) } else { 0 };
    error_at_line(src, c.line, at, msg)
}

/// An error at a known column of the current line, or at its first
/// non-space character when the column was lost to a fold.
fn error_at_col(src: &Src, c: &Cur, col: Option<usize>, msg: String) -> (r: ParseError)
    ensures
        placed(src, r),
        r.message_spec() == msg@,
{
    match col {
        Some(at) => error_at_line(src, c.line, at, msg),
        None => error_current(src, c, msg),
    }
}

/// An error at the column a structural indent lands on in `line_index`.
fn error_at_indent(src: &Src, c: &Cur, line_index: usize, indent: usize, msg: String) -> (r: ParseError)
    ensures
        placed(src, r),
{
    let file = to_file(c, indent);
    let at = if line_index < src.lines.len() && file <= src.lines[line_index].len() { file } else { 0 };
    error_at_line(src, line_index, at, msg)
}

fn error_lit(src: &Src, c: &Cur, msg: &str) -> (r: ParseError)
    ensures
        placed(src, r),
{
    error_current(src, c, lit(msg))
}

// ---- Indent offset frames ----

/// How far the innermost open frame shifts file indents.
pub(crate) open spec fn shift(c: &Cur) -> int {
    if c.frames@.len() == 0 { 0 } else { c.frames@.last().offset as int }
}

/// How far file indents are shifted to get structural ones.
fn offset(c: &Cur) -> (r: usize)
    ensures
        r == shift(c),
{
    if c.frames.len() == 0 { 0 } else { c.frames[c.frames.len() - 1].offset }
}

/// A file column, read as a structural indent.
fn to_logical(c: &Cur, file: usize) -> (r: usize)
    ensures
        r == if file + shift(c) <= usize::MAX { file + shift(c) } else { usize::MAX as int },
{
    file.saturating_add(offset(c))
}

/// A structural indent, as the file column it sits at.
fn to_file(c: &Cur, logical: usize) -> (r: usize)
    ensures
        r == if logical >= shift(c) { logical - shift(c) } else { 0 },
{
    logical.saturating_sub(offset(c))
}

/// `n` levels deeper than `indent`.
fn deeper(indent: usize, n: usize) -> (r: usize)
    ensures
        r == if indent + 2 * n <= usize::MAX { indent + 2 * n } else { usize::MAX as int },
{
    if n > usize::MAX / 2 { usize::MAX } else { indent.saturating_add(n * 2) }
}

fn push_glyph(c: &mut Cur, glyph: usize)
    ensures
        final(c).line == old(c).line,
        final(c).depth == old(c).depth,
        final(c).pending == old(c).pending,
        final(c).frames@ == old(c).frames@.push(Frame {
            offset: (if glyph + shift(old(c)) <= usize::MAX { glyph + shift(old(c)) } else { usize::MAX as int }) as usize,
            close: glyph,
        }),
{
    let off = to_logical(c, glyph);
    c.frames.push(Frame { offset: off, close: glyph });
}

/// What a line turned out to be when asked whether it closes the open frame.
enum CloseGlyph {
    Closed,
    NotACloser,
    Misplaced(usize),
    NothingOpen,
}

/// Does `line` close the current frame? Pops it when it does.
fn try_pop_close(c: &mut Cur, line: &[char]) -> (r: CloseGlyph)
    ensures
        final(c).line == old(c).line,
        final(c).depth == old(c).depth,
        line@.subrange(crate::text::leading_spaces(line@) as int, line@.len() as int) != seq!['/', '>']
            ==> (r is NotACloser && *final(c) == *old(c)),
        line@.subrange(crate::text::leading_spaces(line@) as int, line@.len() as int) == seq!['/', '>']
            ==> ({
                let ls = crate::text::leading_spaces(line@) as int;
                if old(c).frames@.len() == 0 {
                    r is NothingOpen && *final(c) == *old(c)
                } else {
                    let e = old(c).frames@.last().close as int;
                    if e < ls && ls - e == 1 {
                        r is Closed && final(c).frames@ == old(c).frames@.drop_last()
                            && final(c).pending == old(c).pending
                    } else {
                        r == CloseGlyph::Misplaced(e as usize) && *final(c) == *old(c)
                    }
                }
            }),
{
    proof {
        reveal_strlit("/>");
        assert("/>"@ =~= seq!['/', '>']);
    }
    let s = count_leading_spaces(line);
    let rest = from(line, s);
    if !eq_str(rest.as_slice(), "/>") {
        return CloseGlyph::NotACloser;
    }
    if c.frames.len() == 0 {
        return CloseGlyph::NothingOpen;
    }
    let expected = c.frames[c.frames.len() - 1].close;
    if expected < s && s - expected == 1 {
        c.frames.pop();
        CloseGlyph::Closed
    } else {
        CloseGlyph::Misplaced(expected)
    }
}

fn misplaced_closer(src: &Src, c: &Cur, line: &[char], expected: usize) -> (r: ParseError)
    ensures
        placed(src, r),
{
    let found = count_leading_spaces(line);
    let mut m = lit("this `/>` is at column ");
    append_num(&mut m, found.saturating_add(1));
    append_lit(&mut m, ", but the `/<` it closes puts its closer at column ");
    append_num(&mut m, expected.saturating_add(2));
    append_lit(&mut m, ". The two have to sit at the same column -- that pairing is the only thing that says where the shifted frame ends. Move it to column ");
    append_num(&mut m, expected.saturating_add(2));
    append_lit(&mut m, ".");
    error_at_line(src, c.line, found, m)
}

fn closer_with_nothing_open(src: &Src, c: &Cur, line: &[char]) -> (r: ParseError)
    ensures
        placed(src, r),
{
    let at = count_leading_spaces(line);
    error_at_line(src, c.line, at, lit("this `/>` closes an indent offset frame, but no `/<` has opened one, so there is no frame here to close. Delete it, or add the `/<` above that it was meant to close."))
}

/// A marker one column off the indent, where no marker may begin.
fn marker_off_column(src: &Src, line_no: usize, at: usize) -> (r: ParseError)
    ensures
        placed(src, r),
{
    let found = at.saturating_add(1);
    let mut m = lit("this `/` is at column ");
    append_num(&mut m, found);
    append_lit(&mut m, ", between two indent levels. A `/` stands inside the indent it points at, so it can only begin where a level ends -- column ");
    append_num(&mut m, found.saturating_sub(1));
    append_lit(&mut m, " or column ");
    append_num(&mut m, found.saturating_add(1));
    append_lit(&mut m, " here. Move it to the column the value it continues is folded at.");
    error_at_line(src, line_no, at, m)
}

/// Read the leading of line `line_no`, refusing a marker off its column.
fn leading_of_line(src: &Src, line_no: usize) -> (r: Result<Leading, ParseError>)
    requires
        line_no < src.lines@.len(),
    ensures
        err_located(src, r),
        r matches Ok(l) ==> l.indent <= src.lines@[line_no as int]@.len() && l.indent % 2 == 0
            && (l.opener != Opener::Nothing ==> l.indent < src.lines@[line_no as int]@.len()),
        r is Ok <==> crate::lex::leading_of(src.lines@[line_no as int]@) is Ok,
        r matches Ok(l) ==> crate::lex::leading_of(src.lines@[line_no as int]@) == Ok::<Leading, nat>(l),
{
    match leading(src.lines[line_no].as_slice()) {
        Ok(l) => Ok(l),
        Err(at) => Err(marker_off_column(src, line_no, at)),
    }
}

/// The content of a line from where its indent ends, when nothing opened a
/// value in that column.
fn unopened(line: &[char], l: Leading) -> (r: Option<Vec<char>>)
    requires
        l.indent <= line@.len(),
    ensures
        r matches Some(v) ==> v@ == line@.subrange(l.indent as int, line@.len() as int),
        r is Some <==> l.opener == Opener::Nothing,
{
    if matches!(l.opener, Opener::Nothing) { Some(from(line, l.indent)) } else { None }
}

/// Where a line's text starts: past an opener, if one stands there.
fn text_start(line: &[char], l: Leading) -> (r: usize)
    requires
        l.indent <= line@.len(),
        l.opener != Opener::Nothing ==> l.indent < line@.len(),
    ensures
        r <= line@.len(),
        l.opener == Opener::Nothing ==> r == l.indent,
        l.opener != Opener::Nothing ==> r == l.indent + 1,
{
    match l.opener {
        Opener::Nothing => l.indent,
        _ => if l.indent < line.len() { l.indent + 1 } else { l.indent },
    }
}

/// The part of `line` at and after structural `indent`; empty when the line
/// does not reach it.
fn content_at(c: &Cur, line: &[char], indent: usize) -> (r: Vec<char>)
    ensures
        ({
            let f = if indent >= shift(c) { indent - shift(c) } else { 0 };
            r@ == if f <= line@.len() { line@.subrange(f, line@.len() as int) } else { Seq::empty() }
        }),
{
    let f = to_file(c, indent);
    if f <= line.len() { from(line, f) } else { Vec::new() }
}

/// The first character of `line` that is not a space is a tab.
pub open spec fn tab_indented(line: Seq<char>) -> bool {
    let k = crate::text::leading_spaces(line) as int;
    k < line.len() && line[k] == '\t'
}

fn ensure_no_tabs(src: &Src, line_index: usize) -> (r: Result<(), ParseError>)
    ensures
        err_located(src, r),
        r is Err <==> line_index < src.lines@.len() && tab_indented(src.lines@[line_index as int]@),
{
    if line_index >= src.lines.len() {
        return Ok(());
    }
    let line = src.lines[line_index].as_slice();
    let mut i: usize = 0;
    while i < line.len() && (line[i] == ' ' || line[i] == '\t')
        invariant
            i <= line@.len(),
            line_index < src.lines@.len(),
            line@ == src.lines@[line_index as int]@,
            forall|j: int| 0 <= j < i ==> line@[j] == ' ',
        decreases line.len() - i,
    {
        if line[i] == '\t' {
            proof { crate::text::lemma_leading_spaces_unique(line@, i as nat); }
            return Err(error_at_line(src, line_index, i, lit("tab characters are not allowed as indentation")));
        }
        i += 1;
    }
    proof { crate::text::lemma_leading_spaces_unique(line@, i as nat); }
    Ok(())
}

// ---- Comments and blank lines ----

/// After its leading spaces, `line` starts with `//`.
pub open spec fn comment_line(line: Seq<char>) -> bool {
    let s = crate::text::leading_spaces(line) as int;
    s + 2 <= line.len() && line[s] == '/' && line[s + 1] == '/'
}

fn is_comment_line(line: &[char]) -> (r: bool)
    ensures
        r == comment_line(line@),
{
    let s = count_leading_spaces(line);
    s < line.len() && line.len() - s >= 2 && line[s] == '/' && line[s + 1] == '/'
}

fn raw_comment(line: &[char]) -> (r: RawComment)
    ensures
        r.col == crate::text::leading_spaces(line@),
        r.text@ == line@.subrange(crate::text::leading_spaces(line@) as int, line@.len() as int),
{
    let s = count_leading_spaces(line);
    RawComment { col: s, text: from(line, s) }
}

/// Is every line from `from_line` on blank?
fn only_blank_lines_remain(src: &Src, from_line: usize) -> (r: bool)
    ensures
        r == forall|k: int| from_line <= k < src.lines@.len() ==> crate::text::all_spaces(#[trigger] src.lines@[k]@),
{
    let mut i = from_line;
    while i < src.lines.len()
        invariant
            from_line <= i,
            forall|k: int| from_line <= k < i && k < src.lines@.len() ==> crate::text::all_spaces(#[trigger] src.lines@[k]@),
        decreases src.lines.len() - i,
    {
        if !crate::text::is_all_spaces(src.lines[i].as_slice()) {
            return false;
        }
        i += 1;
    }
    true
}

/// Apply the comment-in-fold policy to a comment on line `line_no`.
fn comment_in_fold(src: &Src, c: &mut Cur, line_no: usize, detail: &str) -> (r: Result<(), ParseError>)
    ensures
        err_located(src, r),
        final(c).line == old(c).line,
        final(c).depth == old(c).depth,
        final(c).frames == old(c).frames,
        r is Err <==> src.opts.comment_placement_error_spec() == CommentPlacementError::Reject,
        r is Err || src.opts.comment_placement_error_spec() == CommentPlacementError::Discard
            || line_no >= src.lines@.len() ==> *final(c) == *old(c),
        src.opts.comment_placement_error_spec() == CommentPlacementError::Hoist && line_no < src.lines@.len()
            ==> final(c).pending@ == old(c).pending@.push(final(c).pending@.last())
                && final(c).pending@.last().col == crate::text::leading_spaces(src.lines@[line_no as int]@)
                && final(c).pending@.last().text@ == src.lines@[line_no as int]@.subrange(
                    crate::text::leading_spaces(src.lines@[line_no as int]@) as int, src.lines@[line_no as int]@.len() as int),
{
    match src.opts.comment_placement_policy() {
        CommentPlacementError::Reject => {
            let mut m = lit("a comment may not appear inside a fold; ");
            append_lit(&mut m, detail);
            Err(error_at_line(src, line_no, 0, m))
        },
        CommentPlacementError::Hoist => {
            if line_no < src.lines.len() {
                c.pending.push(raw_comment(src.lines[line_no].as_slice()));
            }
            Ok(())
        },
        CommentPlacementError::Discard => Ok(()),
    }
}

/// Step over comment lines (collecting them) and trailing blank lines.
/// A line the reading stops at: not a comment, not blank, not indented by a tab.
pub open spec fn value_line(line: Seq<char>) -> bool {
    !comment_line(line) && !crate::text::all_spaces(line) && !tab_indented(line)
}

/// A line that reads as indented less than `indent`, so that a block at
/// `indent` ends before it.
pub open spec fn ends_at(line: Seq<char>, indent: int) -> bool {
    match crate::lex::leading_of(line) {
        Ok(l) => l.indent < indent,
        Err(_) => false,
    }
}

/// A line of text that is neither a closing glyph nor a fold continuation.
pub open spec fn plain_end(line: Seq<char>) -> bool {
    let rest = line.subrange(crate::text::leading_spaces(line) as int, line.len() as int);
    &&& value_line(line)
    &&& rest != seq!['/', '>']
    &&& !crate::text::is_prefix(seq!['/', ' '], rest)
}

/// Where a run of comment lines from line `k` ends, each no further out
/// than the one above it (`prev`): the first line that is no comment, or
/// `None` when a comment steps back out.
spec fn comment_run_end(src: &Src, k: int, prev: int) -> Option<int>
    decreases src.lines@.len() - k,
{
    if k < 0 || k >= src.lines@.len() || !comment_line(src.lines@[k]@) {
        Some(k)
    } else if (crate::text::leading_spaces(src.lines@[k]@) as int) < prev {
        None
    } else {
        comment_run_end(src, k + 1, crate::text::leading_spaces(src.lines@[k]@) as int)
    }
}

proof fn lemma_comment_run_end(src: &Src, k: int, prev: int)
    ensures
        comment_run_end(src, k, prev) matches Some(e) ==> k <= e,
        0 <= k < src.lines@.len() && comment_line(src.lines@[k]@) ==> (
            comment_run_end(src, k, prev) == if (crate::text::leading_spaces(src.lines@[k]@) as int) < prev { None }
                else { comment_run_end(src, k + 1, crate::text::leading_spaces(src.lines@[k]@) as int) }),
    decreases src.lines@.len() - k,
{
    if 0 <= k < src.lines@.len() && comment_line(src.lines@[k]@) && (crate::text::leading_spaces(src.lines@[k]@) as int) >= prev {
        lemma_comment_run_end(src, k + 1, crate::text::leading_spaces(src.lines@[k]@) as int);
    }
}

/// A run of comments from `line` that ends on a line of nothing but spaces
/// which the reading refuses: one holding spaces under the rejecting
/// trailing-space policy, or any blank line with text somewhere below it.
spec fn refused_blank(src: &Src, line: int) -> bool {
    comment_run_end(src, line, 0) matches Some(e) && e < src.lines@.len()
        && crate::text::all_spaces(src.lines@[e]@) && ({
            ||| (src.lines@[e]@.len() > 0 && src.opts.trailing_spaces_spec() == TrailingSpaces::Reject)
            ||| !(forall|k: int| e <= k < src.lines@.len() ==> crate::text::all_spaces(#[trigger] src.lines@[k]@))
        })
}

/// The first comment in the run of comment lines from `k` that stands
/// further out than the one above it (`prev` for the first), and the
/// column of that one above.
spec fn step_out(src: &Src, k: int, prev: int) -> Option<(int, int)>
    decreases src.lines@.len() - k,
{
    if k < 0 || k >= src.lines@.len() || !comment_line(src.lines@[k]@) {
        None
    } else if (crate::text::leading_spaces(src.lines@[k]@) as int) < prev {
        Some((k, prev))
    } else {
        step_out(src, k + 1, crate::text::leading_spaces(src.lines@[k]@) as int)
    }
}

/// `n + 1`, short of overflowing a `usize`.
pub open spec fn plus_one(n: int) -> nat {
    if n < usize::MAX { (n + 1) as nat } else { n as nat }
}

/// How a comment further out than the one above it is refused.
pub open spec fn further_out_refusal(col: int, above: int) -> Seq<char> {
    "this comment is at column "@ + crate::text::decimal(plus_one(col))
        + ", further out than the comment on the line above it at column "@ + crate::text::decimal(plus_one(above))
        + ". A run of comment lines may stay at one column or step further in, never back out: a comment belongs to whatever it sits against. Line them up, indent this one further, or put the value they annotate between them."@
}

/// A run of comments from `line` with one further out than the one above it
/// is refused at that comment's line, saying which columns they stand at.
#[verifier::opaque]
spec fn further_out_refused(src: &Src, line: int, r: Result<(), ParseError>) -> bool {
    step_out(src, line, 0) matches Some((k, above))
        ==> (r matches Err(e) && e.line_spec() == k + 1
            && e.message_spec() == further_out_refusal(crate::text::leading_spaces(src.lines@[k]@) as int, above))
}

/// The comment seen on line `k`: where it starts and its text from there.
spec fn seen_comment(src: &Src, k: int, rc: RawComment) -> bool {
    let l = src.lines@[k]@;
    rc.col == crate::text::leading_spaces(l) && rc.text@ == l.subrange(crate::text::leading_spaces(l) as int, l.len() as int)
}

fn skip_ignorable(src: &Src, c: &mut Cur) -> (r: Result<(), ParseError>)
    requires
        ok(src, old(c)),
    ensures
        err_located(src, r),
        moved(src, old(c), final(c)),
        old(c).line >= src.lines@.len() ==> r is Ok && *final(c) == *old(c),
        old(c).line < src.lines@.len() && value_line(src.lines@[old(c).line as int]@)
            ==> r is Ok && *final(c) == *old(c),
        r is Ok ==> final(c).frames == old(c).frames
            && (final(c).line >= src.lines@.len() || value_line(src.lines@[final(c).line as int]@))
            && (forall|k: int| old(c).line <= k < final(c).line ==> comment_line(#[trigger] src.lines@[k]@)
                || crate::text::all_spaces(src.lines@[k]@))
            && old(c).pending@ == final(c).pending@.subrange(0, old(c).pending@.len() as int),
        old(c).line < src.lines@.len() && comment_run_end(src, old(c).line as int, 0) is None ==> r is Err,
        refused_blank(src, old(c).line as int) ==> r is Err,
        further_out_refused(src, old(c).line as int, r),
        refused_blank(src, old(c).line as int) && src.opts.trailing_spaces_spec() == TrailingSpaces::Reject
            && src.lines@[comment_run_end(src, old(c).line as int, 0).unwrap()]@.len() > 0
            ==> (r matches Err(e) && e.line_spec() == comment_run_end(src, old(c).line as int, 0).unwrap() + 1
                && e.column_spec() == 1),
        comment_run_end(src, old(c).line as int, 0) matches Some(e) && ({
            e >= src.lines@.len() || (value_line(src.lines@[e]@) && !crate::text::is_prefix(seq!['/', ' '],
                src.lines@[e]@.subrange(crate::text::leading_spaces(src.lines@[e]@) as int, src.lines@[e]@.len() as int)))
        }) ==> ({
            let e = comment_run_end(src, old(c).line as int, 0).unwrap();
            &&& r is Ok
            &&& final(c).line == e
            &&& final(c).pending@.len() == old(c).pending@.len() + (e - old(c).line)
            &&& forall|i: int| 0 <= i < e - old(c).line
                ==> seen_comment(src, old(c).line + i, #[trigger] final(c).pending@[old(c).pending@.len() + i])
        }),
{
    proof { reveal(further_out_refused); }
    let mut first_comment: Option<usize> = None;
    let mut run_indent: Option<usize> = None;
    let ghost run = comment_run_end(src, old(c).line as int, 0);
    let ghost clean = comment_run_end(src, old(c).line as int, 0) matches Some(e) && ({
            e >= src.lines@.len() || (value_line(src.lines@[e]@) && !crate::text::is_prefix(seq!['/', ' '],
                src.lines@[e]@.subrange(crate::text::leading_spaces(src.lines@[e]@) as int, src.lines@[e]@.len() as int)))
        });
    let ghost p0 = old(c).pending@.len();
    let ghost blank = refused_blank(src, old(c).line as int);
    let ghost so = step_out(src, old(c).line as int, 0);
    proof { lemma_comment_run_end(src, old(c).line as int, 0); }
    while c.line < src.lines.len()
        invariant
            ok(src, c),
            old(c).line <= c.line,
            c.depth == old(c).depth,
            c.frames == old(c).frames,
            c.line == old(c).line ==> *c == *old(c) && first_comment is None,
            old(c).line < src.lines@.len() && value_line(src.lines@[old(c).line as int]@) ==> c.line == old(c).line,
            forall|k: int| old(c).line <= k < c.line ==> comment_line(#[trigger] src.lines@[k]@)
                || crate::text::all_spaces(src.lines@[k]@),
            old(c).pending@ == c.pending@.subrange(0, old(c).pending@.len() as int),
            c.pending@.len() >= old(c).pending@.len(),
            run == comment_run_end(src, old(c).line as int, 0),
            p0 == old(c).pending@.len(),
            clean == (comment_run_end(src, old(c).line as int, 0) matches Some(e) && ({
                e >= src.lines@.len() || (value_line(src.lines@[e]@) && !crate::text::is_prefix(seq!['/', ' '],
                    src.lines@[e]@.subrange(crate::text::leading_spaces(src.lines@[e]@) as int, src.lines@[e]@.len() as int)))
            })),
            clean ==> c.line <= run.unwrap(),
            blank == refused_blank(src, old(c).line as int),
            so == step_out(src, old(c).line as int, 0),
            so is Some ==> so == step_out(src, c.line as int, match run_indent { Some(v) => v as int, None => 0 })
                && c.line < src.lines@.len(),
            blank ==> c.line <= run.unwrap(),
            clean || run is None || blank ==> ({
                &&& forall|k: int| old(c).line <= k < c.line ==> comment_line(#[trigger] src.lines@[k]@)
                &&& run == comment_run_end(src, c.line as int, match run_indent { Some(v) => v as int, None => 0 })
                &&& c.pending@.len() == p0 + (c.line - old(c).line)
                &&& forall|i: int| 0 <= i < c.line - old(c).line
                    ==> seen_comment(src, old(c).line + i, #[trigger] c.pending@[p0 + i])
                &&& (c.line > old(c).line <==> first_comment is Some)
            }),
        ensures
            c.line >= src.lines@.len() || value_line(src.lines@[c.line as int]@),
            !blank,
            clean || run is None ==> ({
                &&& forall|k: int| old(c).line <= k < c.line ==> comment_line(#[trigger] src.lines@[k]@)
                &&& (c.line < src.lines@.len() ==> !comment_line(src.lines@[c.line as int]@))
                &&& run == Some(c.line as int)
                &&& c.pending@.len() == p0 + (c.line - old(c).line)
                &&& forall|i: int| 0 <= i < c.line - old(c).line
                    ==> seen_comment(src, old(c).line + i, #[trigger] c.pending@[p0 + i])
                &&& (c.line > old(c).line <==> first_comment is Some)
            }),
        decreases src.lines.len() - c.line,
    {
        proof { reveal(further_out_refused); }
        proof {
            if clean || run is None || blank {
                lemma_comment_run_end(src, c.line as int, match run_indent { Some(v) => v as int, None => 0 });
            }
        }
        match ensure_no_tabs(src, c.line) {
            Err(e) => { return Err(e); },
            Ok(()) => {},
        }
        let line = src.lines[c.line].as_slice();
        let indent = count_leading_spaces(line);
        proof { crate::text::lemma_leading_spaces_bound(line@); }
        if is_comment_line(line) {
            match run_indent {
                Some(above) => {
                    if indent < above {
                        let mut m = lit("this comment is at column ");
                        append_num(&mut m, indent.saturating_add(1));
                        append_lit(&mut m, ", further out than the comment on the line above it at column ");
                        append_num(&mut m, above.saturating_add(1));
                        append_lit(&mut m, ". A run of comment lines may stay at one column or step further in, never back out: a comment belongs to whatever it sits against. Line them up, indent this one further, or put the value they annotate between them.");
                        return Err(error_at_line(src, c.line, indent, m));
                    }
                },
                None => {},
            }
            run_indent = Some(indent);
            if first_comment.is_none() {
                first_comment = Some(c.line);
            }
            let ghost before = c.pending@;
            let rc = raw_comment(line);
            c.pending.push(rc);
            proof {
                assert(old(c).pending@ =~= c.pending@.subrange(0, old(c).pending@.len() as int)) by {
                    assert(c.pending@.subrange(0, old(c).pending@.len() as int) =~= before.subrange(0, old(c).pending@.len() as int));
                }
                if clean || run is None || blank {
                    assert forall|i: int| 0 <= i < c.line + 1 - old(c).line
                        implies seen_comment(src, old(c).line + i, #[trigger] c.pending@[p0 + i]) by {
                        if i < c.line - old(c).line {
                            assert(c.pending@[p0 + i] == before[p0 + i]);
                        }
                    }
                }
            }
            c.line += 1;
            continue;
        }
        if indent == line.len() {
            if line.len() > 0 && matches!(src.opts.trailing_spaces_policy(), TrailingSpaces::Reject) {
                return Err(error_at_line(src, c.line, 0, lit("a line of nothing but spaces is only meaningful inside a multiline string; here it is trailing whitespace -- remove the spaces, or delete the line")));
            }
            if only_blank_lines_remain(src, c.line) {
                c.line += 1;
                continue;
            }
            return Err(error_at_line(src, c.line, 0, lit("blank lines are not allowed within TJSON; only trailing blank lines at the end of the document are ignored")));
        }
        break;
    }
    match first_comment {
        Some(comment_line) => {
            if c.line < src.lines.len() {
                let line = src.lines[c.line].as_slice();
                let s = count_leading_spaces(line);
                let rest = from(line, s);
                proof {
                    reveal_strlit("/ ");
                    assert("/ "@ =~= seq!['/', ' ']);
                }
                if starts_with_str(rest.as_slice(), "/ ") {
                    let ghost before = c.pending@;
                    let r = comment_in_fold(src, c, comment_line, "the `/ ` line below continues a value that started above this comment -- move the comment above the whole value, or below it");
                    proof {
                        if c.pending@ != before {
                            assert(c.pending@.subrange(0, old(c).pending@.len() as int) =~= before.subrange(0, old(c).pending@.len() as int));
                        }
                    }
                    return r;
                }
            }
        },
        None => {},
    }
    Ok(())
}

fn take_pending(c: &mut Cur) -> (r: Vec<RawComment>)
    ensures
        final(c).line == old(c).line,
        final(c).depth == old(c).depth,
        final(c).frames == old(c).frames,
        final(c).pending@.len() == 0,
        r@ == old(c).pending@,
{
    let mut out: Vec<RawComment> = Vec::new();
    std::mem::swap(&mut out, &mut c.pending);
    out
}

/// The comments that `pending` gives a subject at `level` come after those
/// that `before` holds, in order.
pub open spec fn comments_added(before: Seq<Comment>, after: Seq<Comment>, pending: Seq<RawComment>, level: usize) -> bool {
    &&& after.len() == before.len() + pending.len()
    &&& after.subrange(0, before.len() as int) == before
    &&& forall|i: int| 0 <= i < pending.len() ==> (#[trigger] after[before.len() + i]).text_spec() == pending[i].text@
        && after[before.len() + i].placement_spec() == crate::document::classify_placement(pending[i].col as nat, level as nat)
}

fn attach_node_comments(node: &mut DocNode, pending: Vec<RawComment>, level: usize)
    ensures
        final(node).data() == old(node).data(),
        comments_added(old(node).comments_spec(), final(node).comments_spec(), pending@, level),
        final(node).trailing_spec() == old(node).trailing_spec(),
        final(node).string_form_spec() == old(node).string_form_spec(),
        final(node).table_spec() == old(node).table_spec(),
{
    let ghost raw = pending@;
    let mut rest = Comment::classify_all(pending, level);
    let ghost all = rest@;
    let ghost base = node.comments_spec();
    while rest.len() > 0
        invariant
            rest@.len() <= all.len(),
            rest@ == all.subrange(all.len() - rest@.len(), all.len() as int),
            node.comments_spec() == base + all.subrange(0, all.len() - rest@.len()),
            node.data() == old(node).data(),
            node.trailing_spec() == old(node).trailing_spec(),
            node.string_form_spec() == old(node).string_form_spec(),
            node.table_spec() == old(node).table_spec(),
        decreases rest@.len(),
    {
        let ghost k = all.len() - rest@.len();
        let cm = rest.remove(0);
        node.push_comment_before(cm);
        proof {
            assert(base + all.subrange(0, k).push(cm) =~= base + all.subrange(0, k + 1));
            assert(rest@ =~= all.subrange(all.len() - rest@.len(), all.len() as int));
        }
    }
    proof {
        let after = node.comments_spec();
        assert(all.subrange(0, all.len() as int) =~= all);
        assert(after.subrange(0, base.len() as int) =~= base);
        assert forall|i: int| 0 <= i < raw.len() implies (#[trigger] after[base.len() + i]).text_spec() == raw[i].text@
            && after[base.len() + i].placement_spec() == crate::document::classify_placement(raw[i].col as nat, level as nat) by {
            assert(after[base.len() + i] == all[i]);
        }
    }
}

fn attach_entry_comments(entry: &mut DocEntry, pending: Vec<RawComment>, level: usize)
    ensures
        final(entry).key_spec() == old(entry).key_spec(),
        final(entry).value_spec() == old(entry).value_spec(),
        final(entry).key_form_spec() == old(entry).key_form_spec(),
        comments_added(old(entry).comments_spec(), final(entry).comments_spec(), pending@, level),
{
    let ghost raw = pending@;
    let mut rest = Comment::classify_all(pending, level);
    let ghost all = rest@;
    let ghost base = entry.comments_spec();
    while rest.len() > 0
        invariant
            rest@.len() <= all.len(),
            rest@ == all.subrange(all.len() - rest@.len(), all.len() as int),
            entry.comments_spec() == base + all.subrange(0, all.len() - rest@.len()),
            entry.key_spec() == old(entry).key_spec(),
            entry.value_spec() == old(entry).value_spec(),
            entry.key_form_spec() == old(entry).key_form_spec(),
        decreases rest@.len(),
    {
        let ghost k = all.len() - rest@.len();
        let cm = rest.remove(0);
        entry.push_comment_before(cm);
        proof {
            assert(base + all.subrange(0, k).push(cm) =~= base + all.subrange(0, k + 1));
            assert(rest@ =~= all.subrange(all.len() - rest@.len(), all.len() as int));
        }
    }
    proof {
        let after = entry.comments_spec();
        assert(all.subrange(0, all.len() as int) =~= all);
        assert(after.subrange(0, base.len() as int) =~= base);
        assert forall|i: int| 0 <= i < raw.len() implies (#[trigger] after[base.len() + i]).text_spec() == raw[i].text@
            && after[base.len() + i].placement_spec() == crate::document::classify_placement(raw[i].col as nat, level as nat) by {
            assert(after[base.len() + i] == all[i]);
        }
    }
}

// ---- Folds ----

/// What the line after a fold turns out to be.
enum FoldNext {
    /// A `/ ` continuation at the indent asked about, with the text after it.
    Continues(Vec<char>),
    /// A comment where a continuation follows: inside the fold.
    Comment,
    /// Anything else: the value is finished.
    Ends,
    /// A `/ ` continuation at another column.
    ContinuesElsewhere,
}

/// What a line turns out to be, read as the line after a fold.
ghost enum FoldKind {
    Continues(Seq<char>),
    Comment,
    Ends,
    Elsewhere,
}

impl FoldNext {
    spec fn kind(self) -> FoldKind {
        match self {
            FoldNext::Continues(v) => FoldKind::Continues(v@),
            FoldNext::Comment => FoldKind::Comment,
            FoldNext::Ends => FoldKind::Ends,
            FoldNext::ContinuesElsewhere => FoldKind::Elsewhere,
        }
    }
}

/// Line `line_no` read as a possible `/ ` continuation of a fold whose
/// marker belongs at structural indent `fold_indent`.
spec fn fold_kind(src: &Src, c: &Cur, line_no: int, fold_indent: int) -> FoldKind {
    if line_no < 0 || line_no >= src.lines@.len() {
        FoldKind::Ends
    } else {
        let line = src.lines@[line_no]@;
        let at = crate::text::leading_spaces(line) as int;
        let rest = line.subrange(at, line.len() as int);
        if !crate::text::is_prefix(seq!['/', ' '], rest) {
            FoldKind::Ends
        } else if (if fold_indent >= shift(c) { fold_indent - shift(c) } else { 0 }) != at {
            FoldKind::Elsewhere
        } else {
            FoldKind::Continues(rest.subrange(2, rest.len() as int))
        }
    }
}

/// The first line at or after `k` that is not a comment line.
spec fn past_comments(src: &Src, k: int) -> int
    decreases src.lines@.len() - k,
{
    if k < 0 || k >= src.lines@.len() || !comment_line(src.lines@[k]@) {
        k
    } else {
        past_comments(src, k + 1)
    }
}

fn fold_line(src: &Src, c: &Cur, line_no: usize, fold_indent: usize) -> (r: FoldNext)
    ensures
        r.kind() == fold_kind(src, c, line_no as int, fold_indent as int),
{
    if line_no >= src.lines.len() {
        return FoldNext::Ends;
    }
    let line = src.lines[line_no].as_slice();
    let at = count_leading_spaces(line);
    let rest = from(line, at);
    proof {
        reveal_strlit("/ ");
        assert("/ "@ =~= seq!['/', ' ']);
    }
    if !starts_with_str(rest.as_slice(), "/ ") {
        return FoldNext::Ends;
    }
    if to_file(c, fold_indent) != at {
        return FoldNext::ContinuesElsewhere;
    }
    FoldNext::Continues(from(rest.as_slice(), 2))
}

/// Line `line_no` read as the line after a fold: a comment counts as inside
/// the fold only when a continuation follows the run of comments it starts.
spec fn next_kind(src: &Src, c: &Cur, line_no: int, fold_indent: int) -> FoldKind {
    if 0 <= line_no < src.lines@.len() && comment_line(src.lines@[line_no]@) {
        if fold_kind(src, c, past_comments(src, line_no), fold_indent) is Continues {
            FoldKind::Comment
        } else {
            FoldKind::Ends
        }
    } else {
        fold_kind(src, c, line_no, fold_indent)
    }
}

/// Classify the line after a fold; a comment counts as inside the fold only
/// when a continuation follows the run of comments it starts.
fn classify_fold_next(src: &Src, c: &Cur, line_no: usize, fold_indent: usize) -> (r: FoldNext)
    ensures
        r.kind() == next_kind(src, c, line_no as int, fold_indent as int),
{
    if line_no < src.lines.len() && is_comment_line(src.lines[line_no].as_slice()) {
        let mut ahead = line_no + 1;
        while ahead < src.lines.len() && is_comment_line(src.lines[ahead].as_slice())
            invariant
                line_no < ahead,
                ahead <= src.lines@.len() || ahead == line_no + 1,
                past_comments(src, line_no as int) == past_comments(src, ahead as int),
            decreases src.lines.len() - ahead,
        {
            ahead += 1;
        }
        return match fold_line(src, c, ahead, fold_indent) {
            FoldNext::Continues(_) => FoldNext::Comment,
            _ => FoldNext::Ends,
        };
    }
    fold_line(src, c, line_no, fold_indent)
}

fn stray_fold_marker(src: &Src, c: &Cur, line_no: usize, fold_indent: usize) -> (r: ParseError)
    ensures
        placed(src, r),
{
    let at = if line_no < src.lines.len() { count_leading_spaces(src.lines[line_no].as_slice()) } else { 0 };
    let want = to_file(c, fold_indent).saturating_add(1);
    let mut m = lit("this `/` is at column ");
    append_num(&mut m, at.saturating_add(1));
    append_lit(&mut m, ", but the value it would continue is folded at column ");
    append_num(&mut m, want);
    append_lit(&mut m, ". A `/` carries on the value above it and has to start in that value's column. Move it to column ");
    append_num(&mut m, want);
    append_lit(&mut m, ", or delete it if the line above is complete.");
    error_at_line(src, line_no, at, m)
}

/// Whether `acc` opens with a bare key and its colon.
spec fn bare_key_colon(acc: Seq<char>, o: ParseOptions) -> bool {
    match crate::lex::bare_key_prefix(acc, o) {
        Some(end) => end < acc.len() && acc[end as int] == ':',
        None => false,
    }
}

/// Reading the folds from line `k` on, with `acc` gathered so far: whether a
/// bare key and its colon show up once a continuation is added, `None` where
/// a `/ ` at the wrong column comes first.
spec fn bare_colon_scan(src: &Src, c: &Cur, acc: Seq<char>, k: int, fold_indent: int) -> Option<bool>
    decreases src.lines@.len() - k,
{
    if k < 0 || k >= src.lines@.len() {
        Some(false)
    } else {
        match next_kind(src, c, k, fold_indent) {
            FoldKind::Continues(t) => if bare_key_colon(acc + t, src.opts) {
                Some(true)
            } else {
                bare_colon_scan(src, c, acc + t, k + 1, fold_indent)
            },
            FoldKind::Comment => bare_colon_scan(src, c, acc, k + 1, fold_indent),
            FoldKind::Ends => Some(false),
            FoldKind::Elsewhere => None,
        }
    }
}

/// Reassemble a bare run across its folds and say whether a colon follows
/// the key it would be.
fn folded_bare_has_colon(src: &Src, c: &Cur, content: &[char], fold_indent: usize) -> (r: Result<bool, ParseError>)
    ensures
        err_located(src, r),
        no_fold_after(src, c.line as int) ==> r == Ok::<bool, ParseError>(false),
        match bare_colon_scan(src, c, content@, c.line + 1, fold_indent as int) {
            Some(b) => r == Ok::<bool, ParseError>(b),
            None => r is Err,
        },
{
    let mut acc: Vec<char> = slice_of(content, 0, content.len());
    let mut next = if c.line < src.lines.len() { c.line + 1 } else { src.lines.len() };
    assert(acc@ =~= content@);
    while next < src.lines.len()
        invariant
            no_fold_after(src, c.line as int) && next < src.lines@.len() ==> next == c.line + 1,
            bare_colon_scan(src, c, acc@, next as int, fold_indent as int)
                == bare_colon_scan(src, c, content@, c.line + 1, fold_indent as int),
        decreases src.lines.len() - next,
    {
        match classify_fold_next(src, c, next, fold_indent) {
            FoldNext::Continues(rest) => {
                crate::text::extend(&mut acc, rest.as_slice());
                next += 1;
                match parse_bare_key_prefix(acc.as_slice(), &src.opts) {
                    Some(end) => {
                        if end < acc.len() && acc[end] == ':' {
                            return Ok(true);
                        }
                    },
                    None => {},
                }
            },
            FoldNext::Comment => { next += 1; },
            FoldNext::Ends => { return Ok(false); },
            FoldNext::ContinuesElsewhere => { return Err(stray_fold_marker(src, c, next, fold_indent)); },
        }
    }
    Ok(false)
}

/// Reading the folds from line `k` on, with `acc` gathered so far: once a
/// continuation completes a quoted string at the front, whether a colon
/// follows it; `None` where a `/ ` at the wrong column comes first.
spec fn string_colon_scan(src: &Src, c: &Cur, acc: Seq<char>, k: int, fold_indent: int) -> Option<bool>
    decreases src.lines@.len() - k,
{
    if k < 0 || k >= src.lines@.len() {
        Some(false)
    } else {
        match next_kind(src, c, k, fold_indent) {
            FoldKind::Continues(t) => match crate::lex::json_string_prefix(acc + t) {
                Some((_, end)) => Some(end < (acc + t).len() && (acc + t)[end as int] == ':'),
                None => string_colon_scan(src, c, acc + t, k + 1, fold_indent),
            },
            FoldKind::Comment => string_colon_scan(src, c, acc, k + 1, fold_indent),
            FoldKind::Ends => Some(false),
            FoldKind::Elsewhere => None,
        }
    }
}

/// Reassemble a quoted string across its folds and say whether a colon
/// follows it.
fn folded_json_string_has_colon(src: &Src, c: &Cur, content: &[char], fold_indent: usize) -> (r: Result<bool, ParseError>)
    ensures
        err_located(src, r),
        match string_colon_scan(src, c, content@, c.line + 1, fold_indent as int) {
            Some(b) => r == Ok::<bool, ParseError>(b),
            None => r is Err,
        },
{
    let mut acc: Vec<char> = slice_of(content, 0, content.len());
    let mut next = if c.line < src.lines.len() { c.line + 1 } else { src.lines.len() };
    assert(acc@ =~= content@);
    while next < src.lines.len()
        invariant
            no_fold_after(src, c.line as int) && next < src.lines@.len() ==> next == c.line + 1,
            string_colon_scan(src, c, acc@, next as int, fold_indent as int)
                == string_colon_scan(src, c, content@, c.line + 1, fold_indent as int),
        decreases src.lines.len() - next,
    {
        match classify_fold_next(src, c, next, fold_indent) {
            FoldNext::Continues(rest) => {
                crate::text::extend(&mut acc, rest.as_slice());
                next += 1;
                match parse_json_string_prefix(acc.as_slice()) {
                    Some((_, end)) => {
                        return Ok(end < acc.len() && acc[end] == ':');
                    },
                    None => {},
                }
            },
            FoldNext::Comment => { next += 1; },
            FoldNext::Ends => { return Ok(false); },
            FoldNext::ContinuesElsewhere => { return Err(stray_fold_marker(src, c, next, fold_indent)); },
        }
    }
    Ok(false)
}

/// Does the content at an indent open an object: a key and its colon,
/// possibly folded across lines?
fn looks_like_object_start(src: &Src, c: &Cur, content: &[char], fold_indent: usize) -> (r: Result<bool, ParseError>)
    ensures
        err_located(src, r),
        entry_key(content@, src.opts) is Some && content@[0] != '|' && !crate::lex::marker_chain_start(content@)
            ==> r == Ok::<bool, ParseError>(true),
        no_fold_after(src, c.line as int) && entry_key(content@, src.opts) is None
            && (content@.len() > 0 && content@[0] == '"' ==> crate::lex::json_string_prefix(content@) is Some)
            ==> r == Ok::<bool, ParseError>(false),
{
    if (content.len() > 0 && content[0] == '|') || starts_with_marker_chain(content) {
        return Ok(false);
    }
    match parse_bare_key_prefix(content, &src.opts) {
        Some(end) => {
            if end < content.len() && content[end] == ':' {
                return Ok(true);
            }
            if only_held_back_tail(content, end, &src.opts) {
                match folded_bare_has_colon(src, c, content, fold_indent) {
                    Ok(true) => { return Ok(true); },
                    Ok(false) => {},
                    Err(e) => { return Err(e); },
                }
            }
        },
        None => {},
    }
    match parse_json_string_prefix(content) {
        Some((_, end)) => {
            return Ok(end < content.len() && content[end] == ':');
        },
        None => {},
    }
    if content.len() > 0 && content[0] == '"' {
        return folded_json_string_has_colon(src, c, content, fold_indent);
    }
    Ok(false)
}


// ---- Keys ----

/// Read an object key at the front of `content`: a bare key or a JSON string,
/// either possibly folded onto `/ ` lines. Gives the key, how it was written,
/// and what follows its colon. A folded key leaves the reading on its last
/// line.
/// How the key that opens `e` is written: bare, unless it is a JSON string.
pub open spec fn entry_key_form(e: Seq<char>, o: ParseOptions) -> KeyForm {
    match crate::lex::bare_key_prefix(e, o) {
        Some(n) => if n < e.len() && e[n as int] == ':' { KeyForm::Bare } else { KeyForm::Quoted },
        None => KeyForm::Quoted,
    }
}

/// A bare key that runs past its line: the line ends in characters that a
/// key holds back, and the `/ ` continuation on the next line holds the
/// colon. The key joined from both, and what follows the colon.
spec fn folded_bare_key(src: &Src, c: &Cur, content: Seq<char>, fold_indent: int) -> Option<(Seq<char>, Seq<char>)> {
    match crate::lex::bare_key_prefix(content, src.opts) {
        Some(end) => if !(end < content.len() && content[end as int] == ':')
            && (forall|i: int| end <= i < content.len() ==> crate::lex::held_back(#[trigger] content[i], src.opts))
        {
            match next_kind(src, c, c.line + 1, fold_indent) {
                FoldKind::Continues(t) => if c.line + 1 < src.lines@.len() && t.contains(':') {
                    let p = choose|p: int| 0 <= p < t.len() && t[p] == ':' && forall|j: int| 0 <= j < p ==> t[j] != ':';
                    Some((content + t.subrange(0, p), t.subrange(p + 1, t.len() as int)))
                } else {
                    None
                },
                _ => None,
            }
        } else {
            None
        },
        None => None,
    }
}

#[verifier::rlimit(80)]
#[verifier::spinoff_prover]
fn parse_key(src: &Src, c: &mut Cur, content: &[char], fold_indent: usize)
    -> (r: Result<(String, KeyForm, Vec<char>), ParseError>)
    requires
        ok(src, old(c)),
        old(c).line < src.lines@.len(),
    ensures
        err_located(src, r),
        moved(src, old(c), final(c)),
        final(c).line < src.lines@.len(),
        r matches Ok((_, _, after)) ==> final(c).line > old(c).line || after@.len() < content@.len(),
        entry_key(content@, src.opts) matches Some((k, p))
            ==> (r matches Ok((key, form, after)) && key@ == k && after@ == content@.subrange(p, content@.len() as int)
                && form == entry_key_form(content@, src.opts) && *final(c) == *old(c)),
        folded_bare_key(src, old(c), content@, fold_indent as int) matches Some((k, a))
            ==> (r matches Ok((key, form, after)) && key@ == k && form == KeyForm::Bare && after@ == a
                && final(c).line == old(c).line + 1),
{
    let n_lines = src.lines.len();
    let ghost fk = folded_bare_key(src, old(c), content@, fold_indent as int) is Some;
    match parse_bare_key_prefix(content, &src.opts) {
        Some(end) => {
            if end < content.len() && content[end] == ':' {
                let key = slice_of(content, 0, end);
                return Ok((to_string(key.as_slice()), KeyForm::Bare, from(content, end + 1)));
            }
            if only_held_back_tail(content, end, &src.opts) {
                let mut acc = slice_of(content, 0, content.len());
                let mut next = c.line + 1;
                proof { assert(acc@ =~= content@); }
                while next < src.lines.len()
                    invariant
                        ok(src, c),
                        c.line == old(c).line,
                        old(c).line < next <= src.lines@.len(),
                        c.depth == old(c).depth,
                        entry_key(content@, src.opts) is None,
                        fk == (folded_bare_key(src, old(c), content@, fold_indent as int) is Some),
                        fk ==> next == old(c).line + 1 && acc@ == content@ && *c == *old(c),
                    ensures
                        !fk,
                    decreases src.lines.len() - next,
                {
                    match classify_fold_next(src, c, next, fold_indent) {
                        FoldNext::Continues(cont) => {
                            next += 1;
                            match crate::text::find_char(cont.as_slice(), ':') {
                                Some(p) => {
                                    proof {
                                        if fk {
                                            let t = cont@;
                                            let q = choose|q: int| 0 <= q < t.len() && t[q] == ':' && forall|j: int| 0 <= j < q ==> t[j] != ':';
                                            assert(0 <= p < t.len() && t[p as int] == ':' && forall|j: int| 0 <= j < p ==> t[j] != ':');
                                            assert(q == p) by {
                                                if q < p { assert(t[q] != ':'); }
                                                if p < q { assert(t[p as int] != ':'); }
                                            }
                                        }
                                    }
                                    let head = slice_of(cont.as_slice(), 0, p);
                                    crate::text::extend(&mut acc, head.as_slice());
                                    c.line = next - 1;
                                    return Ok((to_string(acc.as_slice()), KeyForm::Bare, from(cont.as_slice(), p + 1)));
                                },
                                None => {
                                    crate::text::extend(&mut acc, cont.as_slice());
                                },
                            }
                        },
                        FoldNext::Comment => {
                            match comment_in_fold(src, c, next, "this comment sits in the middle of a key that continues below it -- move the comment above the whole key, where it still comments the same thing") {
                                Err(e) => { return Err(e); },
                                Ok(()) => {},
                            }
                            next += 1;
                        },
                        FoldNext::Ends => { break; },
                        FoldNext::ContinuesElsewhere => {
                            return Err(stray_fold_marker(src, c, next, fold_indent));
                        },
                    }
                }
            }
        },
        None => {},
    }
    assert(!fk);
    match parse_json_string_prefix(content) {
        Some((v, end)) => {
            if end < content.len() && content[end] == ':' {
                return Ok((v, KeyForm::Quoted, from(content, end + 1)));
            }
        },
        None => {
            if content.len() > 0 && content[0] == '"' {
                let mut acc = slice_of(content, 0, content.len());
                let mut next = c.line + 1;
                while next < src.lines.len()
                    invariant
                        ok(src, c),
                        c.line == old(c).line,
                        old(c).line < next <= src.lines@.len(),
                        c.depth == old(c).depth,
                        entry_key(content@, src.opts) is None,
                        !fk,
                        fk == (folded_bare_key(src, old(c), content@, fold_indent as int) is Some),
                    decreases src.lines.len() - next,
                {
                    match classify_fold_next(src, c, next, fold_indent) {
                        FoldNext::Continues(rest) => {
                            crate::text::extend(&mut acc, rest.as_slice());
                            next += 1;
                            match parse_json_string_prefix(acc.as_slice()) {
                                Some((v, end)) => {
                                    if end < acc.len() && acc[end] == ':' {
                                        c.line = next - 1;
                                        return Ok((v, KeyForm::Quoted, from(acc.as_slice(), end + 1)));
                                    }
                                },
                                None => {},
                            }
                        },
                        FoldNext::Comment => {
                            match comment_in_fold(src, c, next, "this comment sits in the middle of a quoted key that continues below it -- move the comment above the whole key, where it still comments the same thing") {
                                Err(e) => { return Err(e); },
                                Ok(()) => {},
                            }
                            next += 1;
                        },
                        FoldNext::Ends => { break; },
                        FoldNext::ContinuesElsewhere => {
                            return Err(stray_fold_marker(src, c, next, fold_indent));
                        },
                    }
                }
            }
        },
    }
    let line_no = c.line;
    if content.len() > 0 && src.opts.is_underscore_like(content[0]) {
        return Err(error_at_indent(src, c, line_no, fold_indent, lit("a bare key cannot begin with `_` or a character shaped like one. Keys follow the bare string rules, and this column is where a bare string's opening marker goes -- so a key starting here would be read as a marked string rather than a key. Double quote it.")));
    }
    if starts_with_marker_chain(content) {
        return Err(error_at_indent(src, c, line_no, fold_indent, lit("a nesting marker here says a container starts at this column, but this is where this object's keys go and a container cannot be an entry without a key. If this is meant to continue a value from the line above, indent the continuation instead. If it is meant to be a new entry, give it a key.")));
    }
    Err(error_at_indent(src, c, line_no, fold_indent, lit("invalid object key")))
}

// ---- Multiline strings ----

/// The backtick glyph of each multiline flavour.
pub open spec fn glyph_text(flavor: MultilineFlavor) -> Seq<char> {
    match flavor {
        MultilineFlavor::Triple => seq!['`', '`', '`'],
        MultilineFlavor::Double => seq!['`', '`'],
        MultilineFlavor::Single => seq!['`'],
    }
}

/// A value that opens a multiline string: a space, then the longest of the
/// three glyphs it starts with; the rest of the line follows the glyph.
fn multiline_opener(content: &[char]) -> (r: Option<(MultilineFlavor, Vec<char>)>)
    ensures
        match r {
            Some((f, rest)) => crate::text::is_prefix(seq![' '] + glyph_text(f), content@)
                && rest@ == content@.subrange(1 + glyph_text(f).len() as int, content@.len() as int)
                && (f == MultilineFlavor::Double ==> !crate::text::is_prefix(seq![' '] + glyph_text(MultilineFlavor::Triple), content@))
                && (f == MultilineFlavor::Single ==> !crate::text::is_prefix(seq![' '] + glyph_text(MultilineFlavor::Double), content@)),
            None => !crate::text::is_prefix(seq![' '] + glyph_text(MultilineFlavor::Single), content@),
        },
{
    proof {
        reveal_strlit(" ```");
        reveal_strlit(" ``");
        reveal_strlit(" `");
        assert(" ```"@ =~= seq![' '] + glyph_text(MultilineFlavor::Triple));
        assert(" ``"@ =~= seq![' '] + glyph_text(MultilineFlavor::Double));
        assert(" `"@ =~= seq![' '] + glyph_text(MultilineFlavor::Single));
    }
    if starts_with_str(content, " ```") {
        proof { reveal_strlit(" ```"); }
        return Some((MultilineFlavor::Triple, from(content, 4)));
    }
    if starts_with_str(content, " ``") {
        proof { reveal_strlit(" ``"); }
        return Some((MultilineFlavor::Double, from(content, 3)));
    }
    if starts_with_str(content, " `") {
        proof { reveal_strlit(" `"); }
        return Some((MultilineFlavor::Single, from(content, 2)));
    }
    None
}

fn glyph_of(flavor: MultilineFlavor) -> (r: &'static str)
    ensures
        r@ == glyph_text(flavor),
{
    proof {
        reveal_strlit("```");
        reveal_strlit("``");
        reveal_strlit("`");
    }
    match flavor {
        MultilineFlavor::Triple => "```",
        MultilineFlavor::Double => "``",
        MultilineFlavor::Single => "`",
    }
}

/// `n` spaces.
pub open spec fn space_run(n: nat) -> Seq<char> {
    Seq::new(n, |_i: int| ' ')
}

fn spaces(n: usize) -> (r: Vec<char>)
    ensures
        r@.len() == n,
        r@ == space_run(n as nat),
{
    let mut v: Vec<char> = Vec::new();
    let mut i: usize = 0;
    while i < n
        invariant
            i <= n,
            v@.len() == i,
            v@ == space_run(i as nat),
        decreases n - i,
    {
        proof { assert(v@.push(' ') =~= space_run((i + 1) as nat)); }
        v.push(' ');
        i += 1;
    }
    v
}

/// The line break a multiline string's opener asks for after its glyph:
/// nothing or `\n` for a line feed, `\r\n` for a carriage return and a line
/// feed.
pub open spec fn eol_of(suffix: Seq<char>) -> Option<Seq<char>> {
    if suffix.len() == 0 || suffix == seq!['\\', 'n'] {
        Some(seq!['\n'])
    } else if suffix == seq!['\\', 'r', '\\', 'n'] {
        Some(seq!['\r', '\n'])
    } else {
        None
    }
}

/// The first line at or after `k` that is exactly `closer`, or the number of
/// lines when none is.
pub open spec fn closing_line(lines: Seq<Seq<char>>, k: int, closer: Seq<char>) -> int
    decreases lines.len() - k,
{
    if k < 0 || k >= lines.len() || lines[k] == closer {
        k
    } else {
        closing_line(lines, k + 1, closer)
    }
}

/// The lines `i` up to `k` of a ``` string's body, each a line of the string
/// as it stands.
pub open spec fn triple_pieces(lines: Seq<Seq<char>>, i: int, k: int) -> Seq<(bool, Seq<char>)> {
    Seq::new((k - i) as nat, |j: int| (false, lines[i + j]))
}

/// The lines `i` up to `k` of a `` string's body behind the margin `m`: each
/// `| ` and a line of the string, or `/ ` and text that runs on from the line
/// before (marked `true`).
pub open spec fn double_pieces(lines: Seq<Seq<char>>, i: int, k: int, m: int) -> Option<Seq<(bool, Seq<char>)>>
    decreases k - i,
{
    if k <= i {
        Some(Seq::empty())
    } else {
        match double_pieces(lines, i, k - 1, m) {
            Some(ps) => {
                let l = lines[k - 1];
                if 0 <= m && m + 2 <= l.len() && crate::text::all_spaces(l.subrange(0, m))
                    && (l[m] == '|' || l[m] == '/') && l[m + 1] == ' '
                {
                    Some(ps.push((l[m] == '/', l.subrange(m + 2, l.len() as int))))
                } else {
                    None
                }
            },
            None => None,
        }
    }
}

/// A multiline string's text from its pieces: each line after the first
/// behind `eol`, each run-on piece straight after what it continues.
pub open spec fn join_pieces(ps: Seq<(bool, Seq<char>)>, eol: Seq<char>) -> Seq<char>
    decreases ps.len(),
{
    if ps.len() == 0 {
        Seq::empty()
    } else {
        let prev = join_pieces(ps.drop_last(), eol);
        let (run_on, t) = ps.last();
        if run_on || ps.len() == 1 { prev + t } else { prev + eol + t }
    }
}

/// What a ``` or `` multiline string opened by the text `t` on line `line`
/// of a value at `indent` reads as, and the line after its closer: the
/// closer is the glyph, behind `indent` spaces and one more, with what
/// followed the opening glyph; the text holds a character at least, and a
/// line feed when the reading asks for one.
pub open spec fn multiline_read(lines: Seq<Seq<char>>, o: ParseOptions, line: int, t: Seq<char>, indent: int)
    -> Option<(Seq<char>, int)>
{
    let triple = crate::text::is_prefix(seq![' ', '`', '`', '`'], t);
    let double = !triple && crate::text::is_prefix(seq![' ', '`', '`'], t);
    if 0 <= line < lines.len() && 0 <= indent && (triple || double) {
        let g = if triple { glyph_text(MultilineFlavor::Triple) } else { glyph_text(MultilineFlavor::Double) };
        let suffix = t.subrange(1 + g.len() as int, t.len() as int);
        match eol_of(suffix) {
            Some(eol) => {
                let closer = space_run(indent as nat) + seq![' '] + g + suffix;
                let close = closing_line(lines, line + 1, closer);
                let pieces = if triple {
                    Some(triple_pieces(lines, line + 1, close))
                } else if close > line + 1 {
                    double_pieces(lines, line + 1, close, crate::text::leading_spaces(lines[line + 1]) as int)
                } else {
                    Some(Seq::empty())
                };
                match pieces {
                    Some(ps) => {
                        let v = join_pieces(ps, eol);
                        if close < lines.len() && (ps.len() == 0 || !ps[0].0) && v.len() > 0
                            && (o.multiline_minimum_spec() != MultilineMinimum::Eol || v.contains('\n'))
                        {
                            Some((v, close + 1))
                        } else {
                            None
                        }
                    },
                    None => None,
                }
            },
            None => None,
        }
    } else {
        None
    }
}

/// The pieces of a whole `` body are those of each of its prefixes.
proof fn lemma_double_pieces_prefix(lines: Seq<Seq<char>>, i: int, k: int, m: int, n: int)
    requires
        double_pieces(lines, i, k, m) is Some,
        i <= n < k,
    ensures
        double_pieces(lines, i, n, m) is Some,
        double_pieces(lines, i, n + 1, m) is Some,
        double_pieces(lines, i, n, m).unwrap().len() == n - i,
    decreases k - n,
{
    if n + 1 < k {
        lemma_double_pieces_prefix(lines, i, k - 1, m, n);
    }
    lemma_double_pieces_len(lines, i, n, m);
}

proof fn lemma_double_pieces_len(lines: Seq<Seq<char>>, i: int, k: int, m: int)
    requires
        double_pieces(lines, i, k, m) is Some,
        i <= k,
    ensures
        double_pieces(lines, i, k, m).unwrap().len() == k - i,
    decreases k - i,
{
    if k > i {
        lemma_double_pieces_len(lines, i, k - 1, m);
    }
}

/// Lines before the closer are not it.
proof fn lemma_closing_line(lines: Seq<Seq<char>>, k: int, closer: Seq<char>)
    requires
        0 <= k,
    ensures
        k <= closing_line(lines, k, closer),
        closing_line(lines, k, closer) < lines.len() ==> lines[closing_line(lines, k, closer)] == closer,
        k < lines.len() && lines[k] != closer ==> closing_line(lines, k, closer) == closing_line(lines, k + 1, closer),
    decreases lines.len() - k,
{
    if k < lines.len() && lines[k] != closer {
        lemma_closing_line(lines, k + 1, closer);
    }
}


/// Was this line trying to be the closer, and what stopped it counting?
/// `None` when the line is no attempt at the glyph, or is the closer itself:
/// the glyph alone, at the closer's column.
fn closer_fault(line: &[char], closer: &[char], glyph: &str, reads_as: &str) -> (r: Option<String>)
    ensures
        r is None <==> crate::lex::trimmed(line@) != glyph@
            || (crate::text::leading_spaces(line@) == crate::text::leading_spaces(closer@)
                && line@.subrange(crate::text::leading_spaces(line@) as int, line@.len() as int) == glyph@),
{
    let g = crate::text::to_chars(glyph);
    if !is_attempted_closer(line, g.as_slice()) {
        return None;
    }
    let same_column = count_leading_spaces(line) == count_leading_spaces(closer);
    let expected = count_leading_spaces(closer).saturating_add(1);
    let found = count_leading_spaces(line).saturating_add(1);
    let rest = from(line, count_leading_spaces(line));
    let has_trailing = !crate::text::eq(rest.as_slice(), g.as_slice());
    if same_column && !has_trailing {
        return None;
    }
    let mut m = String::new();
    if same_column {
        append_lit(&mut m, "this ");
        append_lit(&mut m, glyph);
        append_lit(&mut m, " has spaces after it, and a closing glyph has to be the whole line -- delete them and it closes the string opened above");
    } else if !has_trailing {
        append_lit(&mut m, "the closing ");
        append_lit(&mut m, glyph);
        append_lit(&mut m, " glyph is at column ");
        append_num(&mut m, found);
        append_lit(&mut m, " but belongs at column ");
        append_num(&mut m, expected);
        append_lit(&mut m, ", one space further in than the key that opened the string. Where it is, ");
        append_lit(&mut m, reads_as);
    } else {
        append_lit(&mut m, "this ");
        append_lit(&mut m, glyph);
        append_lit(&mut m, " is at column ");
        append_num(&mut m, found);
        append_lit(&mut m, ", belongs at column ");
        append_num(&mut m, expected);
        append_lit(&mut m, ", and has spaces after it -- a closer is the bare glyph alone on its line. Move it to column ");
        append_num(&mut m, expected);
        append_lit(&mut m, " and delete the spaces after it.");
    }
    Some(m)
}

/// The error for a multiline string that never closed, pointing at the line
/// that tried to close it when there is one.
fn unterminated_multiline(src: &Src, opener_line: usize, closer: &[char], glyph: &str) -> (r: ParseError)
    ensures
        placed(src, r),
{
    let g = crate::text::to_chars(glyph);
    let column = count_leading_spaces(closer).saturating_add(1);
    let mut probe = opener_line.saturating_add(1);
    while probe < src.lines.len()
        decreases src.lines.len() - probe,
    {
        let line = src.lines[probe].as_slice();
        if is_attempted_closer(line, g.as_slice()) {
            let at = count_leading_spaces(line);
            let found = at.saturating_add(1);
            let mut m = lit("unterminated multiline string: the ");
            append_lit(&mut m, glyph);
            append_lit(&mut m, " on this line ");
            if found == column {
                append_lit(&mut m, "has trailing spaces after it, and a closing glyph has to be the whole line");
            } else {
                append_lit(&mut m, "is at column ");
                append_num(&mut m, found);
                append_lit(&mut m, ", not column ");
                append_num(&mut m, column);
            }
            append_lit(&mut m, ", so it did not close the string opened on line ");
            append_num(&mut m, opener_line.saturating_add(1));
            append_lit(&mut m, ". The closer must be ");
            append_lit(&mut m, glyph);
            append_lit(&mut m, " alone at column ");
            append_num(&mut m, column);
            return error_at_line(src, probe, at, m);
        }
        probe += 1;
    }
    let mut m = lit("unterminated multiline string: no closing ");
    append_lit(&mut m, glyph);
    append_lit(&mut m, " was found. It must be ");
    append_lit(&mut m, glyph);
    append_lit(&mut m, " alone on its own line at column ");
    append_num(&mut m, column);
    append_lit(&mut m, ", one space further in than the key that opened the string.");
    error_at_line(src, opener_line, 0, m)
}

/// A multiline string must hold at least one character, and under the strict
/// reading at least one linefeed.
fn check_multiline_minimum(src: &Src, c: &Cur, value: &[char], glyph: &str, body_lines: usize) -> (r: Result<(), ParseError>)
    ensures
        err_located(src, r),
        r is Ok <==> value@.len() > 0 && (src.opts.multiline_minimum_spec() != MultilineMinimum::Eol || value@.contains('\n')),
        1 <= c.line <= src.lines@.len() ==> (r matches Err(e) ==> e.line_spec() == c.line && e.column_spec() == 1),
{
    let closer = c.line.saturating_sub(1);
    if value.len() == 0 {
        let mut m = lit("A multiline must contain at least one data character, and this one does not -- ");
        if body_lines == 0 {
            append_lit(&mut m, "there is nothing at all between the opening and closing glyph");
        } else {
            append_lit(&mut m, "its one body line is blank, and a blank line holds no data");
        }
        append_lit(&mut m, ".  An empty multiline string is not allowed: TJSON gives each empty value exactly one representation -- \"\" for the empty string, [] and {} for the empty array and object. If you want an empty string, delete the whole ");
        append_lit(&mut m, glyph);
        append_lit(&mut m, "...");
        append_lit(&mut m, glyph);
        append_lit(&mut m, " block and write \"\" in its place.");
        if body_lines > 0 {
            append_lit(&mut m, " Two blank body lines would instead make a string holding a single EOL, which is valid.");
        }
        return Err(error_at_line(src, closer, 0, m));
    }
    if matches!(src.opts.multiline_minimum_policy(), MultilineMinimum::Eol) && crate::text::find_char(value, '\n').is_none() {
        let mut m = lit("this multiline string holds no real linefeed, which the strict reading refuses; write the value as an ordinary string, or read it with the default multiline minimum to keep the ");
        append_lit(&mut m, glyph);
        append_lit(&mut m, "...");
        append_lit(&mut m, glyph);
        append_lit(&mut m, " block");
        return Err(error_at_line(src, closer, 0, m));
    }
    Ok(())
}

fn push_eol(value: &mut Vec<char>, crlf: bool)
    ensures
        final(value)@ == old(value)@ + (if crlf { seq!['\r', '\n'] } else { seq!['\n'] }),
{
    if crlf {
        value.push('\r');
    }
    value.push('\n');
}

/// Read a multiline string whose opener is `content` on the current line.
#[verifier::rlimit(80)]
#[verifier::spinoff_prover]
fn parse_multiline_string(src: &Src, c: &mut Cur, content: &[char], line_indent: usize)
    -> (r: Result<(String, MultilineFlavor), ParseError>)
    requires
        ok(src, old(c)),
        old(c).line < src.lines@.len(),
    ensures
        err_located(src, r),
        moved(src, old(c), final(c)),
        r is Ok ==> final(c).line > old(c).line,
        old(c).frames@.len() == 0 && lines_fit(src)
            && multiline_read(src_text(src), src.opts, old(c).line as int, content@, line_indent as int) is Some
            ==> (r matches Ok((text, _)) && text@ == multiline_read(src_text(src), src.opts, old(c).line as int, content@, line_indent as int).unwrap().0
                && final(c).line == multiline_read(src_text(src), src.opts, old(c).line as int, content@, line_indent as int).unwrap().1
                && final(c).frames == old(c).frames),
{
    let ghost mr = old(c).frames@.len() == 0 && lines_fit(src)
        && multiline_read(src_text(src), src.opts, old(c).line as int, content@, line_indent as int) is Some;
    let ghost lines = src_text(src);
    let ghost triple = crate::text::is_prefix(seq![' ', '`', '`', '`'], content@);
    let ghost g = if triple { glyph_text(MultilineFlavor::Triple) } else { glyph_text(MultilineFlavor::Double) };
    let ghost sfx = content@.subrange(1 + g.len() as int, content@.len() as int);
    let ghost eol = eol_of(sfx).unwrap();
    let ghost closer_spec = space_run(line_indent as nat) + seq![' '] + g + sfx;
    let ghost close = closing_line(lines, old(c).line + 1, closer_spec);
    let ghost start = old(c).line + 1;
    let ghost m = if start < lines.len() { crate::text::leading_spaces(lines[start]) as int } else { 0 };
    let ghost all = multiline_read(src_text(src), src.opts, old(c).line as int, content@, line_indent as int).unwrap();
    proof {
        reveal_strlit("\\n");
        reveal_strlit("\\r\\n");
        assert("\\n"@ =~= seq!['\\', 'n']);
        assert("\\r\\n"@ =~= seq!['\\', 'r', '\\', 'n']);
        assert(seq![' '] + glyph_text(MultilineFlavor::Triple) =~= seq![' ', '`', '`', '`']);
        assert(seq![' '] + glyph_text(MultilineFlavor::Double) =~= seq![' ', '`', '`']);
        if mr {
            lemma_closing_line(lines, start, closer_spec);
            assert(content@.subrange(0, 3)[0] == content@[0]);
            assert(content@.subrange(0, 3)[1] == content@[1]);
            if triple {
                assert(content@.subrange(0, 4)[1] == content@[1]);
                assert(content@.subrange(0, 4)[2] == content@[2]);
                assert(content@.subrange(0, 3) =~= seq![' ', '`', '`']);
            }
            assert(content@.subrange(0, 2) =~= seq![' ', '`']);
            assert(seq![' '] + glyph_text(MultilineFlavor::Single) =~= seq![' ', '`']);
            assert(m == crate::text::leading_spaces(lines[start]) as int);
            crate::text::lemma_leading_spaces_bound(lines[start]);
            assert(lines[start] == src.lines@[start]@);
            assert(src.lines@[start]@.len() <= usize::MAX);
        }
    }
    let (flavor, suffix) = match multiline_opener(content) {
        Some(x) => x,
        None => { return Err(error_lit(src, c, "invalid multiline string opener")); },
    };
    proof {
        if mr {
            assert(flavor == (if triple { MultilineFlavor::Triple } else { MultilineFlavor::Double }));
            assert(suffix@ == sfx);
        }
    }
    let crlf = if suffix.len() == 0 || eq_str(suffix.as_slice(), "\\n") {
        false
    } else if eq_str(suffix.as_slice(), "\\r\\n") {
        true
    } else {
        return Err(error_lit(src, c, "multiline string opener only allows \\n or \\r\\n after the backticks"));
    };
    let glyph = glyph_of(flavor);
    let mut closer = spaces(to_file(c, line_indent));
    closer.push(' ');
    let g_chars = crate::text::to_chars(glyph);
    crate::text::extend(&mut closer, g_chars.as_slice());
    crate::text::extend(&mut closer, suffix.as_slice());
    proof {
        if mr {
            assert(flavor == (if triple { MultilineFlavor::Triple } else { MultilineFlavor::Double }));
            assert(suffix@ == sfx);
            assert(closer@ =~= closer_spec);
            assert(eol == (if crlf { seq!['\r', '\n'] } else { seq!['\n'] }));
        }
    }
    let opener_line = c.line;
    c.line += 1;
    let mut value: Vec<char> = Vec::new();
    let mut count: usize = 0;
    let mut margin: Option<usize> = None;
    let body_indent = to_file(c, line_indent);
    let content_indent = body_indent.saturating_add(2);
    let mut fold_marker = spaces(body_indent);
    fold_marker.push('/');
    fold_marker.push(' ');
    proof {
        if mr {
            assert(value@ =~= join_pieces(triple_pieces(lines, start, start), eol));
            assert(triple_pieces(lines, start, start) =~= Seq::<(bool, Seq<char>)>::empty());
        }
    }
    loop
        invariant_except_break
            mr ==> c.frames == old(c).frames && start <= c.line <= close && close < lines.len(),
            mr ==> all == multiline_read(src_text(src), src.opts, old(c).line as int, content@, line_indent as int).unwrap()
                && all.1 == close + 1,
            mr ==> closing_line(lines, c.line as int, closer_spec) == close,
            mr ==> closer@ == closer_spec,
            mr ==> flavor == (if triple { MultilineFlavor::Triple } else { MultilineFlavor::Double }),
            mr ==> eol == (if crlf { seq!['\r', '\n'] } else { seq!['\n'] }),
            mr && triple ==> value@ == join_pieces(triple_pieces(lines, start, c.line as int), eol)
                && count == c.line - start,
            mr && triple ==> all.0 == join_pieces(triple_pieces(lines, start, close), eol),
            mr && !triple ==> double_pieces(lines, start, close, m) is Some
                && double_pieces(lines, start, c.line as int, m) is Some,
            mr && !triple ==> value@ == join_pieces(double_pieces(lines, start, c.line as int, m).unwrap(), eol),
            mr && !triple ==> all.0 == join_pieces(double_pieces(lines, start, close, m).unwrap(), eol),
            mr && !triple ==> (close > start ==> !double_pieces(lines, start, close, m).unwrap()[0].0),
            mr && !triple ==> (c.line > start ==> margin == Some(m as usize) && count > 0)
                && (c.line == start ==> margin is None && count == 0),
            mr && !triple ==> m == crate::text::leading_spaces(lines[start]) as int && m <= usize::MAX,
        invariant
            ok(src, c),
            old(c).line < c.line,
            c.depth == old(c).depth,
            lines == src_text(src),
            mr == (old(c).frames@.len() == 0 && lines_fit(src)
                && multiline_read(src_text(src), src.opts, old(c).line as int, content@, line_indent as int) is Some),
            start == old(c).line + 1,
        ensures
            mr ==> c.frames == old(c).frames && c.line == close + 1 && value@ == all.0 && all.1 == close + 1,
        decreases src.lines.len() - c.line,
    {
        if c.line >= src.lines.len() {
            return Err(unterminated_multiline(src, opener_line, closer.as_slice(), glyph));
        }
        let line = src.lines[c.line].as_slice();
        proof {
            if mr {
                assert(lines[c.line as int] == line@);
                lemma_closing_line(lines, c.line as int, closer_spec);
            }
        }
        if crate::text::eq(line, closer.as_slice()) {
            proof {
                if mr {
                    assert(c.line == close);
                    if triple {
                        assert(value@ == all.0);
                    }
                }
            }
            c.line += 1;
            break;
        }
        let ghost here = c.line as int;
        let ghost before = value@;
        proof {
            if mr && !triple {
                lemma_double_pieces_prefix(lines, start, close, m, here);
                let ps = double_pieces(lines, start, here, m).unwrap();
                let l = lines[here];
                assert(double_pieces(lines, start, here + 1, m) == Some(ps.push((l[m] == '/', l.subrange(m + 2, l.len() as int)))));
                assert forall|q: int| 0 <= q < m implies l[q] == ' ' by {
                    assert(l.subrange(0, m)[q] == l[q]);
                }
                crate::text::lemma_leading_spaces_unique(l, m as nat);
                if here == start {
                    assert(ps.len() == 0);
                    lemma_double_pieces_prefix(lines, start, close, m, start);
                    assert(double_pieces(lines, start, close, m).unwrap()[0] == (l[m] == '/', l.subrange(m + 2, l.len() as int))) by {
                        lemma_double_pieces_head(lines, start, close, m);
                    }
                }
            }
        }
        match flavor {
            MultilineFlavor::Triple => {
                if count > 0 {
                    push_eol(&mut value, crlf);
                }
                crate::text::extend(&mut value, line);

                count = count.saturating_add(1);
                proof {
                    if mr {
                        let ps = triple_pieces(lines, start, here);
                        let p = (false, line@);
                        assert(count == here + 1 - start);
                        assert(triple_pieces(lines, start, here + 1) =~= ps.push(p));
                        assert(ps.push(p).drop_last() =~= ps);
                        assert(ps.len() == here - start);
                        assert(ps.push(p).last() == p);
                        if here == start {
                            assert(before =~= Seq::<char>::empty());
                            assert(join_pieces(ps.push(p), eol) == join_pieces(ps, eol) + line@);
                            assert(value@ =~= join_pieces(ps.push(p), eol));
                        } else {
                            assert(join_pieces(ps.push(p), eol) == join_pieces(ps, eol) + eol + line@);
                            assert(value@ =~= join_pieces(ps.push(p), eol));
                        }
                    }
                }
            },
            MultilineFlavor::Double => {
                let at = count_leading_spaces(line);
                let trimmed = from(line, at);
                proof {
                    reveal_strlit("| ");
                    reveal_strlit("/ ");
                    assert("| "@ =~= seq!['|', ' ']);
                    assert("/ "@ =~= seq!['/', ' ']);
                    if mr {
                        assert(at == m);
                        assert(line@[m] == '|' || line@[m] == '/');
                        assert(line@[m + 1] == ' ');
                        assert(line@.subrange(m, m + 2) =~= seq![line@[m], ' ']);
                        assert(trimmed@.subrange(0, 2) =~= line@.subrange(m, m + 2));
                        assert(trimmed@.subrange(2, trimmed@.len() as int) =~= line@.subrange(m + 2, line@.len() as int));
                    }
                }
                if starts_with_str(trimmed.as_slice(), "| ") {
                    match margin {
                        None => { margin = Some(at); },
                        Some(expected) => {
                            if at != expected {
                                return Err(ragged_margin(src, c, at, expected, "|"));
                            }
                        },
                    }
                    if count > 0 {
                        push_eol(&mut value, crlf);
                    }
                    let part = from(trimmed.as_slice(), 2);
                    crate::text::extend(&mut value, part.as_slice());
                    count = count.saturating_add(1);
                    proof {
                        if mr {
                            let ps = double_pieces(lines, start, here, m).unwrap();
                            let p = (false, part@);
                            assert(ps.push(p).drop_last() =~= ps);
                            if here == start {
                                assert(before =~= Seq::<char>::empty());
                            }
                        }
                    }
                } else if starts_with_str(trimmed.as_slice(), "/ ") {
                    match margin {
                        None => {
                            return Err(error_lit(src, c, "fold continuation cannot appear before any content in a `` multiline string"));
                        },
                        Some(expected) => {
                            if at != expected {
                                return Err(ragged_margin(src, c, at, expected, "/"));
                            }
                        },
                    }
                    let part = from(trimmed.as_slice(), 2);
                    crate::text::extend(&mut value, part.as_slice());
                    proof {
                        if mr {
                            let ps = double_pieces(lines, start, here, m).unwrap();
                            let p = (true, part@);
                            assert(ps.push(p).drop_last() =~= ps);
                        }
                    }
                } else {
                    match closer_fault(line, closer.as_slice(), glyph, "it reads as a body line -- and a body line has to start with '| ' or '/ '") {
                        Some(detail) => { return Err(error_current(src, c, detail)); },
                        None => {
                            return Err(error_lit(src, c, "`` multiline string body lines must start with '| ' or '/ '"));
                        },
                    }
                }
            },
            MultilineFlavor::Single => {
                if crate::text::starts_with(line, fold_marker.as_slice()) {
                    if count == 0 {
                        return Err(error_lit(src, c, "fold continuation cannot appear before any content in a ` multiline string"));
                    }
                    if content_indent <= line.len() {
                        let part = from(line, content_indent);
                        crate::text::extend(&mut value, part.as_slice());
                    }
                } else {
                    match closer_fault(line, closer.as_slice(), glyph, "it reads as one more line of the string's content") {
                        Some(detail) => { return Err(error_current(src, c, detail)); },
                        None => {},
                    }
                    if content_indent > line.len() || count_leading_spaces(line) < content_indent {
                        return Err(error_lit(src, c, "` multiline string content lines must be indented at n+2 spaces"));
                    }
                    if count > 0 {
                        push_eol(&mut value, crlf);
                    }
                    let part = from(line, content_indent);
                    crate::text::extend(&mut value, part.as_slice());
                    count = count.saturating_add(1);
                }
            },
        }
        c.line += 1;
    }
    match check_multiline_minimum(src, c, value.as_slice(), glyph, count) {
        Err(e) => { return Err(e); },
        Ok(()) => {},
    }
    Ok((to_string(value.as_slice()), flavor))
}

/// The first piece of a `` body is its first line's.
proof fn lemma_double_pieces_head(lines: Seq<Seq<char>>, i: int, k: int, m: int)
    requires
        double_pieces(lines, i, k, m) is Some,
        i < k,
    ensures
        double_pieces(lines, i, k, m).unwrap()[0] == double_pieces(lines, i, i + 1, m).unwrap()[0],
        double_pieces(lines, i, i + 1, m).unwrap().len() == 1,
    decreases k - i,
{
    lemma_double_pieces_len(lines, i, k, m);
    if k > i + 1 {
        lemma_double_pieces_head(lines, i, k - 1, m);
        lemma_double_pieces_len(lines, i, k - 1, m);
    }
}

fn ragged_margin(src: &Src, c: &Cur, found: usize, expected: usize, marker: &str) -> (r: ParseError)
    ensures
        placed(src, r),
{
    let mut m = lit("this `");
    append_lit(&mut m, marker);
    append_lit(&mut m, "` is at column ");
    append_num(&mut m, found.saturating_add(1));
    append_lit(&mut m, ", but this string's margin is at column ");
    append_num(&mut m, expected.saturating_add(1));
    append_lit(&mut m, ". Any column is fine, but every line of one multiline string has to use the same one. Move this line to column ");
    append_num(&mut m, expected.saturating_add(1));
    append_lit(&mut m, ", or move the others to match it.");
    error_at_line(src, c.line, found, m)
}

/// Read a JSON string that does not close on its line, across its `/ `
/// continuations at `fold_indent`.
fn parse_folded_json_string(src: &Src, c: &mut Cur, content: &[char], fold_indent: usize)
    -> (r: Result<String, ParseError>)
    requires
        ok(src, old(c)),
        old(c).line < src.lines@.len(),
    ensures
        err_located(src, r),
        moved(src, old(c), final(c)),
        r is Ok ==> final(c).line > old(c).line,
{
    let mut json = slice_of(content, 0, content.len());
    let start_line = c.line;
    c.line += 1;
    loop
        invariant
            ok(src, c),
            old(c).line < c.line,
            c.depth == old(c).depth,
        decreases src.lines.len() - c.line,
    {
        if c.line >= src.lines.len() {
            return Err(error_at_indent(src, c, start_line, fold_indent, lit("unterminated JSON string")));
        }
        match ensure_no_tabs(src, c.line) {
            Err(e) => { return Err(e); },
            Ok(()) => {},
        }
        let line = src.lines[c.line].as_slice();
        if is_comment_line(line) {
            let here = c.line;
            match comment_in_fold(src, c, here, "this comment sits in the middle of a quoted string that continues below it -- move the comment above the whole value, or below it") {
                Err(e) => { return Err(e); },
                Ok(()) => {},
            }
            c.line += 1;
            continue;
        }
        let at = count_leading_spaces(line);
        if to_file(c, fold_indent) != at {
            return Err(error_at_indent(src, c, start_line, fold_indent, lit("unterminated JSON string")));
        }
        let rest = from(line, at);
        if !starts_with_str(rest.as_slice(), "/ ") {
            return Err(error_at_indent(src, c, start_line, fold_indent, lit("unterminated JSON string")));
        }
        proof { reveal_strlit("/ "); }
        let more = from(rest.as_slice(), 2);
        crate::text::extend(&mut json, more.as_slice());
        c.line += 1;
        match parse_json_string_prefix(json.as_slice()) {
            Some((v, end)) => {
                if end != json.len() {
                    return Err(error_lit(src, c, "folded JSON strings may not have trailing content after the closing quote"));
                }
                return Ok(v);
            },
            None => {},
        }
    }
}

// ---- Scalars and packing faults ----

/// How `text` would read if it were not a bare string.
fn scalar_spelling(text: &[char]) -> (r: Option<&'static str>)
    ensures
        (text@ == "true"@ || text@ == "false"@) ==> r == Some("a boolean"),
        !(text@ == "true"@ || text@ == "false"@) && text@ == "null"@ ==> r == Some("null"),
        !(text@ == "true"@ || text@ == "false"@ || text@ == "null"@)
            ==> (r is Some <==> crate::jsonlit::json_number(text@)) && (r is Some ==> r == Some("a number")),
{
    if eq_str(text, "true") || eq_str(text, "false") {
        return Some("a boolean");
    }
    if eq_str(text, "null") {
        return Some("null");
    }
    let t = to_string(text);
    match Number::parse_str(t.as_str()) {
        Ok(_) => Some("a number"),
        Err(_) => None,
    }
}

/// Nothing may follow a literal but the end of the line, a space, or (on an
/// array line) a comma.
fn check_literal_boundary(src: &Src, c: &Cur, content: &[char], literal: &str, col: Option<usize>, ctx: Context)
    -> (r: Result<(), ParseError>)
    ensures
        err_located(src, r),
        r is Ok <==> literal@.len() >= content@.len() || content@[literal@.len() as int] == ' '
            || (content@[literal@.len() as int] == ',' && ctx is ArrayLine),
{
    let n = crate::text::to_chars(literal).len();
    if n >= content.len() {
        return Ok(());
    }
    let next = content[n];
    let on_array_line = match ctx {
        Context::ArrayLine(_) => true,
        _ => false,
    };
    if next == ' ' || (next == ',' && on_array_line) {
        return Ok(());
    }
    let end = token_end(content, ctx);
    let token = slice_of(content, 0, end);
    let mut m = lit("`");
    append_lit(&mut m, literal);
    append_lit(&mut m, "` is followed by `");
    crate::text::push_char(&mut m, next);
    append_lit(&mut m, "`, and nothing may follow it. `k:");
    append_lit(&mut m, literal);
    append_lit(&mut m, "` writes the ");
    append_lit(&mut m, if eq_str(crate::text::to_chars(literal).as_slice(), "null") { "null" } else { "boolean" });
    append_lit(&mut m, " itself, so it has to end there. If you meant the text `");
    push_str(&mut m, token.as_slice());
    append_lit(&mut m, "`, write it as a bare string with a space after the colon -- `k: ");
    push_str(&mut m, token.as_slice());
    append_lit(&mut m, "` -- since the space is what opens a string.");
    let at = match col {
        Some(k) => Some(k.saturating_add(n)),
        None => None,
    };
    Err(error_at_col(src, c, at, m))
}

fn bare_comma_error(src: &Src, c: &Cur, col: Option<usize>) -> (r: ParseError)
    ensures
        placed(src, r),
{
    error_at_col(src, c, col, lit("a bare string in a comma separated packed array may not contain a comma; double quote it, or consider unpacking this line onto multiple lines"))
}

fn mixed_pack_error(src: &Src, c: &Cur, col: Option<usize>, bare_scalar: &Option<Vec<char>>) -> (r: ParseError)
    ensures
        placed(src, r),
{
    match bare_scalar {
        Some(text) => {
            let mut m = lit("`");
            push_str(&mut m, text.as_slice());
            append_lit(&mut m, "` has two spaces before it, which makes it a bare string, while the other elements of this packed array are not. A comma separator is `, ` -- a second space opens a bare string. Delete the extra space and this is ");
            match scalar_spelling(text.as_slice()) {
                Some(s) => append_lit(&mut m, s),
                None => append_lit(&mut m, "a value"),
            }
            error_at_col(src, c, col, m)
        },
        None => error_at_col(src, c, col, lit("a comma separated packed array must be either all bare strings or no bare strings; consider unpacking this line onto multiple lines")),
    }
}

/// Read a MINIMAL JSON fragment that starts at column `at` of the current line.
fn parse_minimal_json_line(src: &Src, c: &Cur, content: &[char], at: usize) -> (r: Result<DocNode, ParseError>)
    ensures
        err_located(src, r),
        r is Ok <==> crate::minimal::minimal_json(content@) is Some,
        r matches Ok(n) ==> crate::minimal::minimal_json(content@) == Some(n.data()),
{
    match crate::minimal::parse_minimal_json(content) {
        Ok(node) => Ok(node),
        Err(f) => Err(error_at_line(src, c.line, at.saturating_add(f.at), f.message)),
    }
}


// ---- Tables ----

/// `v` without the spaces that close it.
pub open spec fn rtrim(v: Seq<char>) -> Seq<char> {
    v.subrange(0, v.len() - crate::lex::trailing_spaces(v))
}

/// The texts of the cells of a table line between its first `|` and its
/// last, when it ends on a `|` and no quoted cell is left open.
pub open spec fn inner_texts(row: Seq<char>) -> Option<Seq<Seq<char>>> {
    match crate::lex::table_cells(row) {
        Some(cs) => {
            let first: int = if cs.len() > 0 && cs[0].1.len() == 0 { 1 } else { 0 };
            if cs.len() == 0 || cs[cs.len() - 1].1.len() != 0 || cs.len() - 1 < first {
                None
            } else {
                Some(cs.subrange(first, cs.len() - 1).map_values(|x: (int, Seq<char>)| x.1))
            }
        },
        None => None,
    }
}

/// The key a table header cell names, its closing spaces dropped: a bare key
/// filling it, or a JSON string filling it.
pub open spec fn header_key(t: Seq<char>, o: ParseOptions) -> Option<Seq<char>> {
    if crate::lex::bare_key_prefix(t, o) == Some(t.len() as nat) {
        Some(t)
    } else {
        match crate::lex::json_string_prefix(t) {
            Some((v, n)) => if n == t.len() { Some(v) } else { None },
            None => None,
        }
    }
}

/// The keys the first `k` header cells name.
pub open spec fn header_keys(cells: Seq<Seq<char>>, o: ParseOptions, k: int) -> Option<Seq<Seq<char>>>
    decreases k,
{
    if k <= 0 {
        Some(Seq::empty())
    } else {
        match header_keys(cells, o, k - 1) {
            Some(ks) => match header_key(rtrim(cells[k - 1]), o) {
                Some(key) => Some(ks.push(key)),
                None => None,
            },
            None => None,
        }
    }
}

/// The column keys of a table header line's text, when it names at least one.
pub open spec fn header_of(e: Seq<char>, o: ParseOptions) -> Option<Seq<Seq<char>>> {
    match inner_texts(e) {
        Some(ts) => if ts.len() > 0 { header_keys(ts, o, ts.len() as int) } else { None },
        None => None,
    }
}

/// What a table cell holds, its closing spaces dropped: a bare string behind
/// its opener, a JSON string, a literal, an empty array or object, a number,
/// or MINIMAL JSON.
pub open spec fn cell_value(t: Seq<char>, o: ParseOptions) -> Option<crate::value::Json> {
    if t.len() == 0 {
        None
    } else if t[0] == ' ' || t[0] == '_' {
        let v = t.subrange(1, t.len() as int);
        if crate::lex::bare_string_ok(v, o) { Some(crate::value::Json::Str(v)) } else { None }
    } else if crate::lex::json_string_prefix(t) matches Some((v, n)) && n == t.len() {
        Some(crate::value::Json::Str(crate::lex::json_string_prefix(t).unwrap().0))
    } else if t == seq!['t', 'r', 'u', 'e'] {
        Some(crate::value::Json::Bool(true))
    } else if t == seq!['f', 'a', 'l', 's', 'e'] {
        Some(crate::value::Json::Bool(false))
    } else if t == seq!['n', 'u', 'l', 'l'] {
        Some(crate::value::Json::Null)
    } else if t == seq!['[', ']'] {
        Some(crate::value::Json::Array(Seq::empty()))
    } else if t == seq!['{', '}'] {
        Some(crate::value::Json::Object(Seq::empty()))
    } else if crate::jsonlit::json_number(t) {
        Some(crate::value::Json::Number(t))
    } else if crate::lex::minimal_json_candidate(t) && crate::lex::bracket_close(t, 0, 0, false) == Some(t.len() as int) {
        crate::minimal::minimal_json(t)
    } else {
        None
    }
}

/// The entries the first `k` cells of a row give: each cell that holds
/// something gives its column's key and its value; an empty one gives none.
pub open spec fn row_entries(keys: Seq<Seq<char>>, cells: Seq<Seq<char>>, o: ParseOptions, k: int)
    -> Option<Seq<(Seq<char>, crate::value::Json)>>
    decreases k,
{
    if k <= 0 {
        Some(Seq::empty())
    } else {
        match row_entries(keys, cells, o, k - 1) {
            Some(es) => {
                let t = rtrim(cells[k - 1]);
                if t.len() == 0 {
                    Some(es)
                } else {
                    match cell_value(t, o) {
                        Some(v) => Some(es.push((keys[k - 1], v))),
                        None => None,
                    }
                }
            },
            None => None,
        }
    }
}

/// The entries of a table row's text under the columns `keys`.
pub open spec fn row_of(e: Seq<char>, o: ParseOptions, keys: Seq<Seq<char>>) -> Option<Seq<(Seq<char>, crate::value::Json)>> {
    match inner_texts(e) {
        Some(ts) => if ts.len() == keys.len() { row_entries(keys, ts, o, ts.len() as int) } else { None },
        None => None,
    }
}

/// A line whose text at `indent` opens with `|`: that text.
pub open spec fn pipe_line(line: Seq<char>, indent: int) -> Option<Seq<char>> {
    if 0 <= indent < line.len() && crate::text::all_spaces(line.subrange(0, indent)) && value_line(line)
        && line[indent] == '|'
    {
        Some(line.subrange(indent, line.len() as int))
    } else {
        None
    }
}

/// The rows of a table at `indent` under the columns `keys`, read from line
/// `from`, and the line after the last. The rows end at the end of the text
/// or at a line of an object further out.
#[verifier::opaque]
pub open spec fn table_rows(lines: Seq<Seq<char>>, o: ParseOptions, from: int, indent: int, keys: Seq<Seq<char>>)
    -> Option<(Seq<crate::value::Json>, int)>
    decreases lines.len() - from,
{
    if from < 0 {
        None
    } else if from >= lines.len() {
        Some((Seq::empty(), from))
    } else {
        let line = lines[from];
        if ends_at(line, indent) {
            if plain_end(line) { Some((Seq::empty(), from)) } else { None }
        } else {
            match pipe_line(line, indent) {
                Some(e) => match row_of(e, o, keys) {
                    Some(es) => match table_rows(lines, o, from + 1, indent, keys) {
                        Some((rest, next)) => Some((seq![crate::value::Json::Object(es)] + rest, next)),
                        None => None,
                    },
                    None => None,
                },
                None => None,
            }
        }
    }
}

/// A table at `indent` whose header is line `from`: its rows, each an object
/// of the columns it fills, and the line after the last. It has one row at
/// least.
pub open spec fn table_block(lines: Seq<Seq<char>>, o: ParseOptions, from: int, indent: int)
    -> Option<(Seq<crate::value::Json>, int)>
{
    if 0 <= from < lines.len() {
        match pipe_line(lines[from], indent) {
            Some(e) => match header_of(e, o) {
                Some(keys) => match table_rows(lines, o, from + 1, indent, keys) {
                    Some((rows, next)) => if rows.len() > 0 { Some((rows, next)) } else { None },
                    None => None,
                },
                None => None,
            },
            None => None,
        }
    } else {
        None
    }
}

/// The keys of a whole header are those of each of its prefixes.
proof fn lemma_header_keys_prefix(cells: Seq<Seq<char>>, o: ParseOptions, n: int, k: int)
    requires
        header_keys(cells, o, n) is Some,
        0 <= k < n,
    ensures
        header_keys(cells, o, k) is Some,
        header_key(rtrim(cells[k]), o) is Some,
        header_keys(cells, o, k + 1) == Some(header_keys(cells, o, k).unwrap().push(header_key(rtrim(cells[k]), o).unwrap())),
    decreases n - k,
{
    if k + 1 < n {
        lemma_header_keys_prefix(cells, o, n - 1, k);
    }
}

/// A header's first `k` cells name `k` keys.
proof fn lemma_header_keys_len(cells: Seq<Seq<char>>, o: ParseOptions, k: int)
    requires
        header_keys(cells, o, k) is Some,
        k >= 0,
    ensures
        header_keys(cells, o, k).unwrap().len() == k,
    decreases k,
{
    if k > 0 {
        lemma_header_keys_len(cells, o, k - 1);
    }
}

/// The entries of a whole row come from those of each of its prefixes.
proof fn lemma_row_entries_prefix(keys: Seq<Seq<char>>, cells: Seq<Seq<char>>, o: ParseOptions, n: int, k: int)
    requires
        row_entries(keys, cells, o, n) is Some,
        0 <= k < n,
    ensures
        row_entries(keys, cells, o, k) is Some,
        rtrim(cells[k]).len() > 0 ==> cell_value(rtrim(cells[k]), o) is Some,
    decreases n - k,
{
    if k + 1 < n {
        lemma_row_entries_prefix(keys, cells, o, n - 1, k);
    }
}

/// One step of reading a table's rows: the line at `from` ends them or is a
/// row.
proof fn lemma_table_rows_step(lines: Seq<Seq<char>>, o: ParseOptions, from: int, indent: int, keys: Seq<Seq<char>>)
    requires
        table_rows(lines, o, from, indent, keys) is Some,
        0 <= from,
    ensures
        from >= lines.len() ==> table_rows(lines, o, from, indent, keys) == Some((Seq::<crate::value::Json>::empty(), from)),
        from < lines.len() ==> ({
            let line = lines[from];
            let here = table_rows(lines, o, from, indent, keys).unwrap();
            if ends_at(line, indent) {
                plain_end(line) && here == (Seq::<crate::value::Json>::empty(), from)
            } else {
                &&& pipe_line(line, indent) is Some
                &&& row_of(pipe_line(line, indent).unwrap(), o, keys) is Some
                &&& table_rows(lines, o, from + 1, indent, keys) is Some
                &&& here.0 == seq![crate::value::Json::Object(row_of(pipe_line(line, indent).unwrap(), o, keys).unwrap())]
                    + table_rows(lines, o, from + 1, indent, keys).unwrap().0
                &&& here.1 == table_rows(lines, o, from + 1, indent, keys).unwrap().1
            }
        }),
{
    reveal_with_fuel(table_rows, 2);
}

/// A table line at an even indent reads as indented to that indent with no
/// opener, and is neither a comment, a closer, a fold continuation, a marker
/// chain, an entry nor an element.
proof fn lemma_pipe_line(line: Seq<char>, o: ParseOptions, k: int)
    requires
        pipe_line(line, k) is Some,
        k % 2 == 0,
    ensures
        ({
            let e = line.subrange(k, line.len() as int);
            &&& pipe_line(line, k) == Some(e)
            &&& e.len() >= 1 && e[0] == '|'
            &&& crate::text::leading_spaces(line) == k
            &&& crate::lex::leading_of(line) == Ok::<Leading, nat>(Leading { indent: k as usize, opener: Opener::Nothing })
            &&& value_line(line)
            &&& !comment_line(line)
            &&& e != seq!['/', '>']
            &&& !crate::text::is_prefix(seq!['/', ' '], e)
            &&& !crate::lex::marker_chain_start(e)
            &&& entry_key(e, o) is None
            &&& !item_line(line, o, k)
            &&& element_line(line, o, k) is None
        }),
{
    let e = line.subrange(k, line.len() as int);
    crate::options::lemma_pipe_and_low_line_are_like(o);
    assert forall|i: int| 0 <= i < k implies line[i] == ' ' by {
        assert(line.subrange(0, k)[i] == line[i]);
    }
    assert(e[0] == line[k]);
    crate::text::lemma_leading_spaces_unique(line, k as nat);
    assert(seq!['/', '>'][0] == '/');
    assert(crate::text::is_prefix(seq!['/', ' '], e) ==> e.subrange(0, 2)[0] == e[0]);
    if crate::lex::minimal_json_candidate(e) {
        assert(false);
    }
    if packed_item(e, o) is Some {
        lemma_packed_head(e, o);
    }
}

fn trim_end_spaces(v: &[char]) -> (r: Vec<char>)
    ensures
        r@.len() <= v@.len(),
        r@ == v@.subrange(0, r@.len() as int),
        r@.len() == 0 || r@.last() != ' ',
        forall|j: int| r@.len() <= j < v@.len() ==> v@[j] == ' ',
        r@ == rtrim(v@),
{
    let mut e = v.len();
    proof { assert(v@.subrange(0, e as int) =~= v@); }
    while e > 0 && v[e - 1] == ' '
        invariant
            e <= v@.len(),
            forall|j: int| e <= j < v@.len() ==> v@[j] == ' ',
            crate::lex::trailing_spaces(v@) == (v@.len() - e) + crate::lex::trailing_spaces(v@.subrange(0, e as int)),
        decreases e,
    {
        proof { assert(v@.subrange(0, e as int).drop_last() =~= v@.subrange(0, e - 1)); }
        e -= 1;
    }
    slice_of(v, 0, e)
}

/// Where `bytes` into the content that begins at structural `indent` falls
/// on the current line.
fn offset_past(c: &Cur, indent: usize, bytes: usize) -> (r: usize)
    ensures
        ({
            let f = if indent >= shift(c) { indent - shift(c) } else { 0 };
            r == if f + bytes <= usize::MAX { f + bytes } else { usize::MAX as int }
        }),
{
    to_file(c, indent).saturating_add(bytes)
}

/// The cells of a table line between its first and last pipes.
fn inner_cells(src: &Src, c: &Cur, row: &[char], indent: usize, what: &str) -> (r: Result<Vec<Cell>, ParseError>)
    ensures
        err_located(src, r),
        inner_texts(row@) matches Some(ts) ==> (r matches Ok(cells) && cells@.len() == ts.len()
            && forall|k: int| 0 <= k < ts.len() ==> #[trigger] cells@[k].text@ == ts[k]),
{
    let cells = match split_pipe_cells(row) {
        Some(v) => v,
        None => {
            let mut m = lit("invalid table ");
            append_lit(&mut m, what);
            return Err(error_at_indent(src, c, c.line, indent, m));
        },
    };
    let first = if cells.len() > 0 && cells[0].text.len() == 0 { 1usize } else { 0usize };
    if cells.len() == 0 || cells[cells.len() - 1].text.len() != 0 || cells.len() - 1 < first {
        let mut m = lit("table ");
        append_lit(&mut m, what);
        append_lit(&mut m, " must end with \"  |\" (two spaces of padding then pipe)");
        return Err(error_at_line(src, c.line, offset_past(c, indent, row.len()), m));
    }
    let last = cells.len() - 1;
    let mut out: Vec<Cell> = Vec::new();
    let mut k = first;
    while k < last
        invariant
            last < cells@.len(),
            first <= k <= last,
            out@.len() == k - first,
            forall|j: int| 0 <= j < out@.len() ==> #[trigger] out@[j].text@ == cells@[first + j].text@,
        decreases last - k,
    {
        let piece = slice_of(cells[k].text.as_slice(), 0, cells[k].text.len());
        proof { assert(piece@ =~= cells@[k as int].text@); }
        out.push(Cell { text: piece, at: cells[k].at });
        k += 1;
    }
    proof {
        if inner_texts(row@) is Some {
            let cs = crate::lex::table_cells(row@).unwrap();
            assert(cs == cells@.map_values(|c: Cell| crate::lex::cell_view(c)));
            let ts = inner_texts(row@).unwrap();
            assert forall|j: int| 0 <= j < ts.len() implies #[trigger] out@[j].text@ == ts[j] by {
                assert(cs[first + j] == crate::lex::cell_view(cells@[first + j]));
            }
        }
    }
    Ok(out)
}

fn parse_table_header_key(src: &Src, c: &Cur, cell: &[char], col: usize) -> (r: Result<(String, KeyForm), ParseError>)
    ensures
        err_located(src, r),
        header_key(cell@, src.opts) matches Some(k) ==> (r matches Ok((key, _)) && key@ == k),
{
    match parse_bare_key_prefix(cell, &src.opts) {
        Some(end) => {
            if end == cell.len() {
                return Ok((to_string(cell), KeyForm::Bare));
            }
        },
        None => {},
    }
    match parse_json_string_prefix(cell) {
        Some((v, end)) => {
            if end == cell.len() {
                return Ok((v, KeyForm::Quoted));
            }
        },
        None => {},
    }
    if cell.len() > 0 && cell[0] == ' ' {
        let trimmed = from(cell, count_leading_spaces(cell));
        let mut m = lit("a table header cell is a key, and a key cannot begin with a space. Pad a column on the right instead -- write `|");
        push_str(&mut m, trimmed.as_slice());
        append_lit(&mut m, "` rather than `|");
        if cell.len() == 1 {
            append_lit(&mut m, " ");
        } else {
            push_str(&mut m, cell);
        }
        append_lit(&mut m, "`");
        return Err(error_at_line(src, c.line, col, m));
    }
    match check_bare_key(cell, &src.opts) {
        Err(fault) => {
            let mut m = lit("invalid table header key: ");
            let d = describe_key_fault(fault);
            append_lit(&mut m, d.as_str());
            Err(error_at_line(src, c.line, col, m))
        },
        Ok(()) => Err(error_at_line(src, c.line, col, lit("invalid table header key"))),
    }
}

#[verifier::rlimit(40)]
#[verifier::spinoff_prover]
fn parse_table_header(src: &Src, c: &Cur, row: &[char], indent: usize) -> (r: Result<Vec<(String, KeyForm)>, ParseError>)
    ensures
        err_located(src, r),
        header_of(row@, src.opts) matches Some(keys) ==> (r matches Ok(cols) && cols@.len() == keys.len()
            && forall|j: int| 0 <= j < keys.len() ==> #[trigger] cols@[j].0@ == keys[j]),
{
    let cells = match inner_cells(src, c, row, indent, "header") {
        Ok(v) => v,
        Err(e) => { return Err(e); },
    };
    if cells.len() == 0 {
        return Err(error_at_line(src, c.line, 0, lit("table headers must list columns")));
    }
    let ghost hk = header_of(row@, src.opts) is Some;
    let ghost ts = inner_texts(row@).unwrap();
    let mut columns: Vec<(String, KeyForm)> = Vec::new();
    let mut k: usize = 0;
    while k < cells.len()
        invariant
            k <= cells@.len(),
            columns@.len() == k,
            hk == (header_of(row@, src.opts) is Some),
            hk ==> ts == inner_texts(row@).unwrap() && ts.len() == cells@.len()
                && (forall|j: int| 0 <= j < ts.len() ==> #[trigger] cells@[j].text@ == ts[j])
                && header_keys(ts, src.opts, ts.len() as int) is Some
                && header_keys(ts, src.opts, k as int) is Some
                && (forall|j: int| 0 <= j < k ==> #[trigger] columns@[j].0@ == header_keys(ts, src.opts, k as int).unwrap()[j]),
        decreases cells.len() - k,
    {
        proof {
            if hk {
                lemma_header_keys_prefix(ts, src.opts, ts.len() as int, k as int);
            }
        }
        let text = trim_end_spaces(cells[k].text.as_slice());
        let col = offset_past(c, indent, cells[k].at);
        let key = match parse_table_header_key(src, c, text.as_slice(), col) {
            Ok(key) => key,
            Err(e) => { return Err(e); },
        };
        let ghost prev = columns@;
        columns.push(key);
        proof {
            if hk {
                let ks = header_keys(ts, src.opts, k + 1).unwrap();
                lemma_header_keys_len(ts, src.opts, k as int);
                assert(cells@[k as int].text@ == ts[k as int]);
                assert(text@ == rtrim(ts[k as int]));
                assert(ks[k as int] == header_key(rtrim(ts[k as int]), src.opts).unwrap());
                assert(columns@[k as int].0@ == ks[k as int]);
                assert forall|j: int| 0 <= j < k + 1 implies #[trigger] columns@[j].0@ == ks[j] by {
                    if j < k {
                        assert(columns@[j] == prev[j]);
                    }
                }
            }
        }
        k += 1;
    }
    proof {
        if hk {
            assert(header_of(row@, src.opts) == header_keys(ts, src.opts, ts.len() as int));
            lemma_header_keys_len(ts, src.opts, ts.len() as int);
        }
    }
    Ok(columns)
}

/// Read one table cell's value. `at` is where the cell starts in the current
/// line, or `None` when its row was put together across folds.
fn parse_table_cell_value(src: &Src, c: &Cur, cell: &[char], at: Option<usize>) -> (r: Result<DocNode, ParseError>)
    ensures
        err_located(src, r),
        cell_value(cell@, src.opts) matches Some(v) ==> (r matches Ok(n) && n.data() == v),
{
    proof {
        reveal_strlit("true");
        reveal_strlit("false");
        reveal_strlit("null");
        reveal_strlit("[]");
        reveal_strlit("{}");
        assert("true"@ =~= seq!['t', 'r', 'u', 'e']);
        assert("false"@ =~= seq!['f', 'a', 'l', 's', 'e']);
        assert("null"@ =~= seq!['n', 'u', 'l', 'l']);
        assert("[]"@ =~= seq!['[', ']']);
        assert("{}"@ =~= seq!['{', '}']);
        DocNode::lemma_datas_empty();
        if cell@.len() > 1 {
            assert(cell@.subrange(1, cell@.len() as int)[0] == cell@[1]);
        }
    }
    if cell.len() == 0 {
        return Err(error_at_col(src, c, at, lit("empty table cells mean the key is absent")));
    }
    if cell[0] == ' ' || cell[0] == '_' {
        let form = if cell[0] == '_' { BareForm::Marked } else { BareForm::Plain };
        let value = from(cell, 1);
        if value.len() > 0 && value[0] == ' ' {
            let content = from(cell, count_leading_spaces(cell));
            let mut m = lit("a table cell is padded on the right, not the left. The first space after the `|` is the bare string's opening quote, so the second one starts a second value -- write `| ");
            push_str(&mut m, content.as_slice());
            let width = cell.len();
            let used = content.len().saturating_add(1);
            if width > used {
                let pad = spaces(width - used);
                push_str(&mut m, pad.as_slice());
            }
            append_lit(&mut m, "|` rather than `|");
            push_str(&mut m, cell);
            append_lit(&mut m, "|`, or `|");
            push_str(&mut m, content.as_slice());
            append_lit(&mut m, "` with no space at all for a number or a boolean.");
            return Err(error_at_col(src, c, at, m));
        }
        match check_bare_string(value.as_slice(), &src.opts) {
            Err(fault) => {
                let mut m = lit("invalid bare string in table cell: ");
                let d = describe_bare_fault(fault);
                append_lit(&mut m, d.as_str());
                return Err(error_at_col(src, c, at, m));
            },
            Ok(()) => {},
        }
        let mut node = DocNode::string(to_string(value.as_slice()));
        node.set_string_form(Some(StringForm::Bare(form)));
        return Ok(node);
    }
    match parse_json_string_prefix(cell) {
        Some((v, end)) => {
            if end == cell.len() {
                let mut node = DocNode::string(v);
                node.set_string_form(Some(StringForm::Quoted));
                return Ok(node);
            }
        },
        None => {},
    }
    if eq_str(cell, "true") {
        return Ok(DocNode::bool(true));
    }
    if eq_str(cell, "false") {
        return Ok(DocNode::bool(false));
    }
    if eq_str(cell, "null") {
        return Ok(DocNode::null());
    }
    if eq_str(cell, "[]") {
        let mut node = DocNode::array(Vec::new());
        node.set_table(Some(false));
        return Ok(node);
    }
    if eq_str(cell, "{}") {
        return Ok(DocNode::object(Vec::new()));
    }
    let t = to_string(cell);
    match Number::parse_str(t.as_str()) {
        Ok(n) => { return Ok(DocNode::number(n)); },
        Err(_) => {},
    }
    if is_minimal_json_candidate(cell) {
        match minimal_json_end(cell) {
            Some(end) => {
                if end == cell.len() {
                    let start = match at { Some(k) => k, None => 0 };
                    return parse_minimal_json_line(src, c, cell, start);
                }
            },
            None => {},
        }
    }
    Err(error_at_col(src, c, at, lit("invalid table cell value")))
}

/// The keys of a table's columns.
pub open spec fn col_keys(cols: Seq<(String, KeyForm)>) -> Seq<Seq<char>> {
    cols.map_values(|p: (String, KeyForm)| p.0@)
}

fn parse_table_row(src: &Src, c: &Cur, columns: &Vec<(String, KeyForm)>, row: &[char], indent: usize, row_start: Option<usize>)
    -> (r: Result<DocNode, ParseError>)
    ensures
        err_located(src, r),
        row_of(row@, src.opts, col_keys(columns@)) matches Some(es)
            ==> (r matches Ok(n) && n.data() == crate::value::Json::Object(es)),
        inner_texts(row@) matches Some(ts) && ts.len() != columns@.len()
            ==> (r matches Err(e) && e.message_spec() == "table row has wrong number of cells"@),
{
    let cells = match inner_cells(src, c, row, indent, "row") {
        Ok(v) => v,
        Err(e) => { return Err(e); },
    };
    if cells.len() != columns.len() {
        return Err(error_at_line(src, c.line, offset_past(c, indent, row.len()), lit("table row has wrong number of cells")));
    }
    let ghost keys = col_keys(columns@);
    let ghost rk = row_of(row@, src.opts, keys) is Some;
    let ghost ts = inner_texts(row@).unwrap();
    let mut entries: Vec<DocEntry> = Vec::new();
    proof { DocNode::lemma_datas_empty(); }
    let mut k: usize = 0;
    assert(!(inner_texts(row@) matches Some(t) && t.len() != columns@.len()));
    while k < cells.len()
        invariant
            cells@.len() == columns@.len(),
            !(inner_texts(row@) matches Some(t) && t.len() != columns@.len()),
            k <= cells@.len(),
            keys == col_keys(columns@),
            rk == (row_of(row@, src.opts, keys) is Some),
            rk ==> ts == inner_texts(row@).unwrap() && ts.len() == cells@.len()
                && (forall|j: int| 0 <= j < ts.len() ==> #[trigger] cells@[j].text@ == ts[j])
                && row_entries(keys, ts, src.opts, ts.len() as int) is Some
                && row_entries(keys, ts, src.opts, k as int) == Some(DocNode::entry_datas(entries@)),
        decreases cells.len() - k,
    {
        proof {
            if rk {
                lemma_row_entries_prefix(keys, ts, src.opts, ts.len() as int, k as int);
                assert(cells@[k as int].text@ == ts[k as int]);
            }
        }
        let text = trim_end_spaces(cells[k].text.as_slice());
        if text.len() > 0 {
            let at = match row_start {
                Some(start) => Some(start.saturating_add(cells[k].at)),
                None => None,
            };
            let value = match parse_table_cell_value(src, c, text.as_slice(), at) {
                Ok(v) => v,
                Err(e) => { return Err(e); },
            };
            let (key, form) = &columns[k];
            let mut entry = DocEntry::new(key.clone(), value);
            entry.set_key_form(Some(*form));
            proof {
                DocNode::lemma_entry_datas_push(entries@, entry);
                assert(keys[k as int] == key@);
            }
            entries.push(entry);
        }
        k += 1;
    }
    proof {
        if rk {
            assert(row_of(row@, src.opts, keys) == row_entries(keys, ts, src.opts, ts.len() as int));
        }
    }
    Ok(DocNode::object(entries))
}

/// The table at `elem_indent` whose header is line `line`, read with no
/// indent offset frame open.
spec fn tbl(src: &Src, c: &Cur, line: int, elem_indent: int) -> Option<(Seq<crate::value::Json>, int)> {
    if c.frames@.len() == 0 && elem_indent % 2 == 0 && lines_fit(src) {
        table_block(src_text(src), src.opts, line, elem_indent)
    } else {
        None
    }
}

/// The line after `l`, if there is one, is no comment, no fold continuation,
/// and reads as indented, its text starting where its indent ends when no
/// opener stands there.
spec fn plain_after(src: &Src, l: int) -> bool {
    l + 1 >= src.lines@.len() || {
        let n = src.lines@[l + 1]@;
        let ls = crate::text::leading_spaces(n) as int;
        &&& ls <= usize::MAX
        &&& !comment_line(n)
        &&& crate::lex::leading_of(n) is Ok
        &&& (crate::lex::leading_of(n) matches Ok(ld) ==> (ld.opener == Opener::Nothing ==> ld.indent == ls))
        &&& !crate::text::is_prefix(seq!['/', ' '], n.subrange(ls, n.len() as int))
    }
}

/// Where the rows of a table at `elem_indent` read from line `l` lead: the
/// next line, when there is one, starts a row or ends the table.
proof fn lemma_rows_follow(src: &Src, l: int, elem_indent: int, keys: Seq<Seq<char>>)
    requires
        lines_fit(src),
        0 <= l,
        l + 1 <= src.lines@.len(),
        elem_indent % 2 == 0,
        table_rows(src_text(src), src.opts, l + 1, elem_indent, keys) is Some,
    ensures
        plain_after(src, l),
{
    lemma_table_rows_step(src_text(src), src.opts, l + 1, elem_indent, keys);
    if l + 1 < src.lines@.len() {
        let n = src.lines@[l + 1]@;
        assert(src_text(src)[l + 1] == n);
        let j = crate::text::leading_spaces(n) as int;
        assert(src.lines@[l + 1]@.len() <= usize::MAX);
        crate::text::lemma_leading_spaces_bound(n);
        if !ends_at(n, elem_indent) {
            lemma_pipe_line(n, src.opts, elem_indent);
        }
    }
}

/// A table's header line is followed by a row, so by no comment or fold.
proof fn lemma_table_follow(src: &Src, l: int, elem_indent: int)
    requires
        lines_fit(src),
        elem_indent % 2 == 0,
        table_block(src_text(src), src.opts, l, elem_indent) is Some,
    ensures
        no_fold_after(src, l),
        plain_after(src, l),
{
    let e = pipe_line(src_text(src)[l], elem_indent).unwrap();
    let keys = header_of(e, src.opts).unwrap();
    lemma_rows_follow(src, l, elem_indent, keys);
}

/// Read a table: a header line at `elem_indent`, then its rows.
#[verifier::rlimit(80)]
#[verifier::spinoff_prover]
fn parse_table_array(src: &Src, c: &mut Cur, elem_indent: usize) -> (r: Result<DocNode, ParseError>)
    requires
        ok(src, old(c)),
    ensures
        err_located(src, r),
        moved(src, old(c), final(c)),
        r is Ok ==> final(c).line > old(c).line,
        r matches Ok(n) ==> n.table_spec() == Some(true),
        old(c).line + 1 >= src.lines@.len() ==> r is Err,
        tbl(src, old(c), old(c).line as int, elem_indent as int) is Some
            ==> (r matches Ok(n) && n.data() == crate::value::Json::Array(tbl(src, old(c), old(c).line as int, elem_indent as int).unwrap().0)
                && final(c).line == tbl(src, old(c), old(c).line as int, elem_indent as int).unwrap().1
                && final(c).frames@.len() == 0),
{
    if c.line >= src.lines.len() {
        return Err(error_lit(src, c, "expected a table header"));
    }
    let ghost run = tbl(src, old(c), old(c).line as int, elem_indent as int) is Some;
    let ghost lines = src_text(src);
    let ghost hl = src.lines@[c.line as int]@;
    let ghost keys = header_of(hl.subrange(elem_indent as int, hl.len() as int), src.opts).unwrap();
    let ghost all = tbl(src, old(c), old(c).line as int, elem_indent as int).unwrap();
    proof {
        if run {
            assert(lines[c.line as int] == hl);
            lemma_pipe_line(hl, src.opts, elem_indent as int);
        }
    }
    match ensure_no_tabs(src, c.line) {
        Err(e) => { return Err(e); },
        Ok(()) => {},
    }
    let header = content_at(c, src.lines[c.line].as_slice(), elem_indent);
    let columns = match parse_table_header(src, c, header.as_slice(), elem_indent) {
        Ok(v) => v,
        Err(e) => { return Err(e); },
    };
    proof {
        if run {
            assert(col_keys(columns@) =~= keys);
        }
    }
    c.line += 1;
    let mut rows: Vec<DocNode> = Vec::new();
    proof { DocNode::lemma_datas_empty(); }
    loop
        invariant
            ok(src, c),
            old(c).line < c.line,
            c.depth == old(c).depth,
            lines == src_text(src),
            old(c).line + 1 >= src.lines@.len() ==> rows@.len() == 0 && c.line >= src.lines@.len(),
            run == (tbl(src, old(c), old(c).line as int, elem_indent as int) is Some),
            run ==> c.frames@.len() == 0 && elem_indent % 2 == 0 && keys == col_keys(columns@)
                && table_rows(lines, src.opts, c.line as int, elem_indent as int, keys) is Some
                && table_rows(lines, src.opts, c.line as int, elem_indent as int, keys).unwrap().1 == all.1
                && DocNode::datas(rows@) + table_rows(lines, src.opts, c.line as int, elem_indent as int, keys).unwrap().0 == all.0
                && all.0.len() > 0,
        ensures
            run ==> table_rows(lines, src.opts, c.line as int, elem_indent as int, keys)
                == Some((Seq::<crate::value::Json>::empty(), c.line as int)),
        decreases src.lines.len() - c.line,
    {
        let ghost tr = table_rows(lines, src.opts, c.line as int, elem_indent as int, keys);
        proof {
            if run {
                lemma_table_rows_step(lines, src.opts, c.line as int, elem_indent as int, keys);
                if c.line < src.lines@.len() {
                    let l = src.lines@[c.line as int]@;
                    assert(lines[c.line as int] == l);
                    let j = crate::text::leading_spaces(l) as int;
                    if !ends_at(l, elem_indent as int) {
                        lemma_pipe_line(l, src.opts, elem_indent as int);
                        lemma_rows_follow(src, c.line as int, elem_indent as int, keys);
                    }
                }
            }
        }
        match skip_ignorable(src, c) {
            Err(e) => { return Err(e); },
            Ok(()) => {},
        }
        if c.line >= src.lines.len() {
            break;
        }
        let line = src.lines[c.line].as_slice();
        match try_pop_close(c, line) {
            CloseGlyph::Closed => {
                c.line += 1;
                continue;
            },
            CloseGlyph::Misplaced(expected) => { return Err(misplaced_closer(src, c, line, expected)); },
            CloseGlyph::NothingOpen => { return Err(closer_with_nothing_open(src, c, line)); },
            CloseGlyph::NotACloser => {},
        }
        match ensure_no_tabs(src, c.line) {
            Err(e) => { return Err(e); },
            Ok(()) => {},
        }
        let lead = match leading_of_line(src, c.line) {
            Ok(l) => l,
            Err(e) => { return Err(e); },
        };
        let indent = to_logical(c, lead.indent);
        if indent < elem_indent {
            break;
        }
        if indent != elem_indent {
            return Err(error_lit(src, c, "expected a table row at the array indent"));
        }
        let row = match unopened(line, lead) {
            Some(r) => {
                if r.len() > 0 && r[0] == '|' {
                    r
                } else {
                    return Err(error_lit(src, c, "table arrays may only contain table rows"));
                }
            },
            None => {
                let mut m = lit("this row's `|` is at column ");
                append_num(&mut m, lead.indent.saturating_add(2));
                append_lit(&mut m, ", one column right of the table. A row's cell edges line up with the header's or the columns stop being columns, so every `|` on this line is one past where it belongs. Delete the space before it.");
                return Err(error_current(src, c, m));
            },
        };
        let pair_indent = elem_indent.saturating_sub(2);
        let mut row_owned = row;
        let row_start = to_file(c, elem_indent);
        let mut folded = false;
        let ghost row_line = c.line;
        let ghost row_text = row_owned@;
        loop
            invariant
                ok(src, c),
                old(c).line <= c.line,
                row_line <= c.line,
                c.line < src.lines@.len(),
                c.depth == old(c).depth,
                run == (tbl(src, old(c), old(c).line as int, elem_indent as int) is Some),
                run ==> c.line == row_line && row_owned@ == row_text && c.frames@.len() == 0
                    && plain_after(src, row_line as int),
            decreases src.lines.len() - c.line,
        {
            let mut offset: usize = 1;
            let mut comment_line: Option<usize> = None;
            while c.line + offset < src.lines.len() && is_comment_line(src.lines[c.line + offset].as_slice())
                invariant
                    c.line < src.lines@.len(),
                    1 <= offset,
                    c.line + offset <= src.lines@.len(),
                    run == (tbl(src, old(c), old(c).line as int, elem_indent as int) is Some),
                    run ==> offset == 1 && c.line == row_line && plain_after(src, row_line as int),
                decreases src.lines.len() - (c.line + offset),
            {
                if comment_line.is_none() {
                    comment_line = Some(c.line + offset);
                }
                offset += 1;
            }
            let next = c.line + offset;
            if next >= src.lines.len() {
                break;
            }
            let next_line = src.lines[next].as_slice();
            let next_lead = match leading_of_line(src, next) {
                Ok(l) => l,
                Err(e) => { return Err(e); },
            };
            if to_logical(c, next_lead.indent) != pair_indent {
                break;
            }
            let continued = match unopened(next_line, next_lead) {
                Some(content) => {
                    if starts_with_str(content.as_slice(), "/ ") {
                        proof {
                            reveal_strlit("/ ");
                            assert("/ "@ =~= seq!['/', ' ']);
                        }
                        from(content.as_slice(), 2)
                    } else {
                        break;
                    }
                },
                None => { break; },
            };
            match comment_line {
                Some(at) => {
                    match comment_in_fold(src, c, at, "this comment sits between a table row and the `/ ` line continuing it -- move the comment above the row, or below it") {
                        Err(e) => { return Err(e); },
                        Ok(()) => {},
                    }
                },
                None => {},
            }
            let mut k: usize = c.line + 1;
            while k < next
                invariant
                    ok(src, c),
                    old(c).line <= c.line,
                    c.depth == old(c).depth,
                    next < src.lines@.len(),
                    run == (tbl(src, old(c), old(c).line as int, elem_indent as int) is Some),
                    !run,
                decreases next - k,
            {
                match ensure_no_tabs(src, k) {
                    Err(e) => { return Err(e); },
                    Ok(()) => {},
                }
                k += 1;
            }
            c.line = next;
            match ensure_no_tabs(src, c.line) {
                Err(e) => { return Err(e); },
                Ok(()) => {},
            }
            crate::text::extend(&mut row_owned, continued.as_slice());
            folded = true;
        }
        let pending = take_pending(c);
        let start = if folded { None } else { Some(row_start) };
        let mut parsed = match parse_table_row(src, c, &columns, row_owned.as_slice(), elem_indent, start) {
            Ok(v) => v,
            Err(e) => { return Err(e); },
        };
        if pending.len() > 0 {
            attach_node_comments(&mut parsed, pending, elem_indent);
        }
        let ghost before = DocNode::datas(rows@);
        proof { DocNode::lemma_datas_push(rows@, parsed); }
        rows.push(parsed);
        c.line += 1;
        proof {
            if run {
                let rest = table_rows(lines, src.opts, c.line as int, elem_indent as int, keys).unwrap().0;
                assert(before.push(parsed.data()) + rest =~= before + (seq![parsed.data()] + rest));
            }
        }
    }
    proof {
        if run {
            DocNode::lemma_datas_len(rows@);
            assert(DocNode::datas(rows@) + Seq::<crate::value::Json>::empty() =~= DocNode::datas(rows@));
        }
    }
    if rows.len() == 0 {
        return Err(error_lit(src, c, "table arrays must contain at least one row"));
    }
    proof {
        if run {
            assert(DocNode::datas(rows@) + Seq::<crate::value::Json>::empty() =~= DocNode::datas(rows@));
        }
    }
    Ok(array_node(rows, true))
}


// ---- Messages of the structural walk ----

fn too_deep(src: &Src, c: &Cur) -> (r: ParseError)
    ensures
        placed(src, r),
{
    let mut m = lit("this document nests more than ");
    append_num(&mut m, MAX_DEPTH);
    append_lit(&mut m, " containers deep, which is as far as this parser goes. MINIMAL JSON inside a document stops at the same depth, so the two agree.");
    error_current(src, c, m)
}

fn require_marker_error(src: &Src, c: &Cur, glyph: &str) -> (r: ParseError)
    ensures
        placed(src, r),
{
    let mut m = lit("this container has no nesting marker, and the reading in force requires one at every level. Write `");
    append_lit(&mut m, glyph);
    append_lit(&mut m, "` at the start of this line -- a marker in this position names the container the indentation already implies, so it does not change the value or move anything deeper.");
    error_current(src, c, m)
}

fn missing_marker_error(src: &Src, c: &Cur, col: usize, depth: usize) -> (r: ParseError)
    ensures
        placed(src, r),
{
    let mut m = lit("two spaces sit here where a nesting marker belongs. This column is one level deeper than the ");
    append_num(&mut m, depth);
    append_lit(&mut m, " marker(s) before it, so TJSON reads the level as being there either way -- what is missing is the `[ ` that tells a reader about it. Write `[ ` in place of the two spaces (only the deepest marker on a line may be `{ `), or move the value two columns left to put it at the level above");
    error_at_line(src, c.line, col, m)
}

fn opener_where_an_entry_belongs(src: &Src, c: &Cur, l: Leading) -> (r: ParseError)
    ensures
        placed(src, r),
{
    let column = l.indent.saturating_add(1);
    let mut m = lit("column ");
    append_num(&mut m, column);
    match l.opener {
        Opener::Glyph => append_lit(&mut m, " holds the space that begins an indent offset glyph"),
        _ => append_lit(&mut m, " holds a bare string's opening space"),
    }
    append_lit(&mut m, ", so this line is a value -- but it sits where an object's entries begin, and an object has nowhere to put a value that is not an entry. Delete the space so the key starts at column ");
    append_num(&mut m, column);
    append_lit(&mut m, ", or move the value onto the line of the key it belongs to.");
    error_at_line(src, c.line, l.indent, m)
}

/// What `ladder_message` says for a bare string that lacks its opening space.
spec fn ladder_text(ctx: Context) -> Seq<char> {
    "a bare string opens with a space -- the space is its opening quote, and there is none here. "@ + match ctx {
        Context::ArrayLine(Packing::Comma) => "A comma packed array cannot hold a bare string at all: the space that opens one makes the comma after it part of the string rather than a separator, so there is no spacing that works here. Double quote this element, or put the array on multiple lines"@,
        Context::ArrayLine(Packing::Space) => "In a space separated packed array every element carries its own opening space, on top of the two that separate it from the element before -- so this one wants three spaces in front of it rather than two"@,
        _ => "Counting from the colon: one space writes the string (`k: x`), two open a packed array (`k:  1, 2`), and three put a bare string inside that array (`k:   x`)"@,
    }
}

fn ladder_message(ctx: Context) -> (r: String)
    ensures
        r@ == ladder_text(ctx),
{
    let mut m = lit("a bare string opens with a space -- the space is its opening quote, and there is none here. ");
    match ctx {
        Context::ArrayLine(Packing::Comma) => append_lit(&mut m, "A comma packed array cannot hold a bare string at all: the space that opens one makes the comma after it part of the string rather than a separator, so there is no spacing that works here. Double quote this element, or put the array on multiple lines"),
        Context::ArrayLine(Packing::Space) => append_lit(&mut m, "In a space separated packed array every element carries its own opening space, on top of the two that separate it from the element before -- so this one wants three spaces in front of it rather than two"),
        _ => append_lit(&mut m, "Counting from the colon: one space writes the string (`k: x`), two open a packed array (`k:  1, 2`), and three put a bare string inside that array (`k:   x`)"),
    }
    m
}

fn string_node(v: String, form: StringForm) -> (r: DocNode)
    ensures
        r.data() == crate::value::Json::Str(v@),
        r.string_form_spec() == Some(form),
{
    let mut node = DocNode::string(v);
    node.set_string_form(Some(form));
    node
}

fn array_node(items: Vec<DocNode>, table: bool) -> (r: DocNode)
    ensures
        r.data() == crate::value::Json::Array(DocNode::datas(items@)),
        r.table_spec() == Some(table),
{
    let mut node = DocNode::array(items);
    node.set_table(Some(table));
    node
}

fn is_all_spaces_vec(v: &[char]) -> (r: bool)
    ensures
        r == crate::text::all_spaces(v@),
{
    crate::text::is_all_spaces(v)
}

// ---- The structural walk ----
//
// Every function below reads forward from the current line and never back;
// `moved` says so. The walk terminates because each call either goes one
// container deeper (bounded by `MAX_DEPTH`), consumes at least one line, or
// hands the same line to a function of lower rank.

/// Read the value a document holds, starting at the current line.
#[verifier::rlimit(100)]
#[verifier::spinoff_prover]
fn parse_root_value(src: &Src, c: &mut Cur) -> (r: Result<DocNode, ParseError>)
    requires
        ok(src, old(c)),
    ensures
        err_located(src, r),
        moved(src, old(c), final(c)),
        old(c).frames@.len() == 0 && old(c).line < src.lines@.len() && no_fold_after(src, old(c).line as int)
            && src.start == src.opts.start_indent_spec()
            && lone_line(src.lines@[old(c).line as int]@, src.opts) is Some
            ==> (r matches Ok(n) && lone_line(src.lines@[old(c).line as int]@, src.opts) == Some(n.data())
                && final(c).line == old(c).line + 1 && final(c).frames@.len() == 0),
        value_below(src, old(c), old(c).line as int, src.start as int) is Some
            ==> (r matches Ok(n) && n.data() == value_below(src, old(c), old(c).line as int, src.start as int).unwrap().0
                && final(c).line == value_below(src, old(c), old(c).line as int, src.start as int).unwrap().1),
        old(c).frames@.len() == 0 && src.start + 2 <= usize::MAX
            && entry_line_refused(src_text(src), src.opts, old(c).line as int, src.start + 2) ==> r is Err,
    decreases MAX_DEPTH - old(c).depth, src.lines@.len() - old(c).line, 20int,
{
    if c.line >= src.lines.len() {
        return Err(error_at_line(src, 0, 0, lit("empty input: a TJSON document must contain a value")));
    }
    proof {
        if entry_line_at(src_text(src), src.opts, c.line as int, src.start + 2) {
            assert(src_text(src)[c.line as int] == src.lines@[c.line as int]@);
        }
        if lone_line(src.lines@[c.line as int]@, src.opts) is Some {
            lemma_lone_line(src.lines@[c.line as int]@, src.opts);
        }
        if value_below(src, c, c.line as int, src.start as int) is Some {
            assert(src_text(src)[c.line as int] == src.lines@[c.line as int]@);
            if item_line(src.lines@[c.line as int]@, src.opts, src.start + 2) {
                lemma_item_line(src.lines@[c.line as int]@, src.opts, src.start + 2);
            } else if element_line(src.lines@[c.line as int]@, src.opts, src.start + 2) is Some {
                lemma_element_line(src.lines@[c.line as int]@, src.opts, src.start + 2);
                lemma_arr_block_step(src_text(src), src.opts, c.line as int, src.start + 2, (MAX_DEPTH - c.depth - 1) as nat);
                if c.line + 1 < src.lines@.len() {
                    assert(src_text(src)[c.line + 1] == src.lines@[c.line + 1]@);
                    lemma_unfolded_src(src, c.line as int);
                }
            } else if array_open_line(src.lines@[c.line as int]@, src.opts, src.start as int) is Some {
                lemma_array_open_line(src.lines@[c.line as int]@, src.opts, src.start as int);
                lemma_unfolded_src(src, c.line as int);
                assert(src.lines@[c.line as int]@.len() <= usize::MAX);
            } else {
                lemma_pipe_line(src.lines@[c.line as int]@, src.opts, src.start + 2);
                lemma_below_value(src_text(src), src.opts, c.line as int, src.start + 2, (MAX_DEPTH - c.depth - 1) as nat);
                lemma_table_follow(src, c.line as int, src.start + 2);
            }
        }
    }
    match ensure_no_tabs(src, c.line) {
        Err(e) => { return Err(e); },
        Ok(()) => {},
    }
    let line = src.lines[c.line].as_slice();
    let lead = match leading_of_line(src, c.line) {
        Ok(l) => l,
        Err(e) => { return Err(e); },
    };
    let indent = to_logical(c, lead.indent);
    let start = src.start;
    if indent == start {
        match unopened(line, lead) {
            Some(u) => {
                if starts_with_marker_chain(u.as_slice()) {
                    return parse_marker_chain_line(src, c, u.as_slice(), indent);
                }
            },
            None => {},
        }
    }
    let root_glyph = to_file(c, deeper(start, 1));
    if matches!(lead.opener, Opener::Glyph) && lead.indent == root_glyph {
        push_glyph(c, root_glyph);
        c.line += 1;
        match skip_ignorable(src, c) {
            Err(e) => { return Err(e); },
            Ok(()) => {},
        }
        return parse_root_value(src, c);
    }
    if indent <= start {
        let content = content_at(c, line, start);
        let f = to_file(c, start);
        let at = if f <= line.len() { f } else { line.len() };
        return parse_standalone_scalar_line(src, c, content.as_slice(), at, start);
    }
    let child = deeper(start, 1);
    let child_content = content_at(c, line, child);
    match looks_like_object_start(src, c, child_content.as_slice(), child) {
        Err(e) => Err(e),
        Ok(true) => parse_implicit_object(src, c, start),
        Ok(false) => parse_implicit_array(src, c, start),
    }
}

/// An object whose entries sit one level below `parent_indent`, with no
/// marker opening it.
fn parse_implicit_object(src: &Src, c: &mut Cur, parent_indent: usize) -> (r: Result<DocNode, ParseError>)
    requires
        ok(src, old(c)),
    ensures
        err_located(src, r),
        moved(src, old(c), final(c)),
        r is Ok ==> final(c).line > old(c).line,
        nested_below(src, old(c), old(c).line as int, parent_indent as int) is Some
            ==> (r matches Ok(n) && n.data() == crate::value::Json::Object(nested_below(src, old(c), old(c).line as int, parent_indent as int).unwrap().0)
                && final(c).line == nested_below(src, old(c), old(c).line as int, parent_indent as int).unwrap().1
                && final(c).frames@.len() == 0),
        old(c).frames@.len() == 0 && parent_indent + 2 <= usize::MAX
            && entry_line_refused(src_text(src), src.opts, old(c).line as int, parent_indent + 2) ==> r is Err,
        src.opts.missing_indent_marker_spec() == MissingIndentMarker::RequireForced ==> r is Err,
    decreases MAX_DEPTH - old(c).depth, src.lines@.len() - old(c).line, 12int,
{
    if matches!(src.opts.missing_indent_marker_policy(), MissingIndentMarker::RequireForced) {
        return Err(require_marker_error(src, c, "{ "));
    }
    let mut entries: Vec<DocEntry> = Vec::new();
    proof {
        if nested_below(src, c, c.line as int, parent_indent as int) is Some {
            assert(src_text(src)[c.line as int] == src.lines@[c.line as int]@);
            lemma_item_line(src.lines@[c.line as int]@, src.opts, parent_indent + 2);
        }
    }
    match parse_object_tail(src, c, deeper(parent_indent, 1), &mut entries) {
        Err(e) => { return Err(e); },
        Ok(()) => {},
    }
    proof {
        DocNode::lemma_datas_empty();
        DocNode::lemma_entry_datas_len(entries@);
        if nested_below(src, old(c), old(c).line as int, parent_indent as int) is Some {
            let inner = nested_below(src, old(c), old(c).line as int, parent_indent as int).unwrap().0;
            assert(Seq::<(Seq<char>, crate::value::Json)>::empty() + inner =~= inner);
        }
    }
    if entries.len() == 0 {
        return Err(error_lit(src, c, "expected at least one object entry"));
    }
    Ok(DocNode::object(entries))
}

/// An array whose elements sit one level below `parent_indent`, with no
/// marker opening it: a table when its first line starts with a pipe.
/// The table one level below `parent_indent` whose header is line `line`,
/// when the reading lets a container go without a marker.
spec fn tab_below(src: &Src, c: &Cur, line: int, parent_indent: int) -> Option<(Seq<crate::value::Json>, int)> {
    if src.opts.missing_indent_marker_spec() != MissingIndentMarker::RequireForced && parent_indent + 2 <= usize::MAX {
        tbl(src, c, line, parent_indent + 2)
    } else {
        None
    }
}

fn parse_implicit_array(src: &Src, c: &mut Cur, parent_indent: usize) -> (r: Result<DocNode, ParseError>)
    requires
        ok(src, old(c)),
    ensures
        err_located(src, r),
        moved(src, old(c), final(c)),
        r is Ok ==> final(c).line > old(c).line,
        tab_below(src, old(c), old(c).line as int, parent_indent as int) is Some
            ==> (r matches Ok(n) && n.data() == crate::value::Json::Array(tab_below(src, old(c), old(c).line as int, parent_indent as int).unwrap().0)
                && final(c).line == tab_below(src, old(c), old(c).line as int, parent_indent as int).unwrap().1
                && final(c).frames@.len() == 0),
        arr_below(src, old(c), old(c).line as int, parent_indent as int) is Some
            ==> (r matches Ok(n) && n.data() == crate::value::Json::Array(arr_below(src, old(c), old(c).line as int, parent_indent as int).unwrap().0)
                && final(c).line == arr_below(src, old(c), old(c).line as int, parent_indent as int).unwrap().1
                && final(c).frames@.len() == 0),
    decreases MAX_DEPTH - old(c).depth, src.lines@.len() - old(c).line, 12int,
{
    proof {
        if arr_below(src, c, c.line as int, parent_indent as int) is Some {
            assert(src_text(src)[c.line as int] == src.lines@[c.line as int]@);
            lemma_element_line(src.lines@[c.line as int]@, src.opts, parent_indent + 2);
        }
        if tab_below(src, c, c.line as int, parent_indent as int) is Some {
            assert(src_text(src)[c.line as int] == src.lines@[c.line as int]@);
            lemma_pipe_line(src.lines@[c.line as int]@, src.opts, parent_indent + 2);
        }
    }
    if matches!(src.opts.missing_indent_marker_policy(), MissingIndentMarker::RequireForced) {
        return Err(require_marker_error(src, c, "[ "));
    }
    match skip_ignorable(src, c) {
        Err(e) => { return Err(e); },
        Ok(()) => {},
    }
    let elem = deeper(parent_indent, 1);
    if c.line >= src.lines.len() {
        return Err(error_lit(src, c, "expected array contents"));
    }
    match ensure_no_tabs(src, c.line) {
        Err(e) => { return Err(e); },
        Ok(()) => {},
    }
    let line = src.lines[c.line].as_slice();
    let lead = match leading_of_line(src, c.line) {
        Ok(l) => l,
        Err(e) => { return Err(e); },
    };
    let indent = to_logical(c, lead.indent);
    if indent < elem {
        return Err(error_lit(src, c, "expected array elements indented by two spaces"));
    }
    match unopened(line, lead) {
        Some(u) => {
            if u.len() > 0 && u[0] == '|' {
                return parse_table_array(src, c, elem);
            }
        },
        None => {},
    }
    let mut elements: Vec<DocNode> = Vec::new();
    match parse_array_tail(src, c, parent_indent, &mut elements) {
        Err(e) => { return Err(e); },
        Ok(()) => {},
    }
    proof {
        DocNode::lemma_datas_empty();
        DocNode::lemma_datas_len(elements@);
        if arr_below(src, old(c), old(c).line as int, parent_indent as int) is Some {
            let items = arr_below(src, old(c), old(c).line as int, parent_indent as int).unwrap().0;
            assert(Seq::<crate::value::Json>::empty() + items =~= items);
        }
    }
    if elements.len() == 0 {
        return Err(error_lit(src, c, "expected at least one array element"));
    }
    Ok(array_node(elements, false))
}

/// Read an object's entries, one container deeper.
fn parse_object_tail(src: &Src, c: &mut Cur, pair_indent: usize, entries: &mut Vec<DocEntry>) -> (r: Result<(), ParseError>)
    requires
        ok(src, old(c)),
    ensures
        err_located(src, r),
        moved(src, old(c), final(c)),
        final(entries)@.len() >= old(entries)@.len(),
        r is Ok ==> (final(entries)@.len() > old(entries)@.len() ==> final(c).line > old(c).line),
        old(c).depth < MAX_DEPTH && blk(src, old(c), old(c).line as int, pair_indent as int, MAX_DEPTH - old(c).depth - 1) is Some
            ==> (r is Ok && final(c).frames@.len() == 0
                && final(c).line == blk(src, old(c), old(c).line as int, pair_indent as int, MAX_DEPTH - old(c).depth - 1).unwrap().1
                && DocNode::entry_datas(final(entries)@) == DocNode::entry_datas(old(entries)@)
                    + blk(src, old(c), old(c).line as int, pair_indent as int, MAX_DEPTH - old(c).depth - 1).unwrap().0),
        old(c).frames@.len() == 0 && entry_line_refused(src_text(src), src.opts, old(c).line as int, pair_indent as int)
            ==> r is Err,
    decreases MAX_DEPTH - old(c).depth, src.lines@.len() - old(c).line, 5int,
{
    if c.depth >= MAX_DEPTH {
        return Err(too_deep(src, c));
    }
    c.depth += 1;
    let r = object_tail(src, c, pair_indent, entries);
    c.depth -= 1;
    r
}

#[verifier::rlimit(80)]
#[verifier::spinoff_prover]
fn object_tail(src: &Src, c: &mut Cur, pair_indent: usize, entries: &mut Vec<DocEntry>) -> (r: Result<(), ParseError>)
    requires
        ok(src, old(c)),
    ensures
        err_located(src, r),
        moved(src, old(c), final(c)),
        final(entries)@.len() >= old(entries)@.len(),
        r is Ok ==> (final(entries)@.len() > old(entries)@.len() ==> final(c).line > old(c).line),
        tail_block(src, old(c), pair_indent as int) is Some
            ==> (r is Ok && final(c).frames@.len() == 0
                && final(c).line == tail_block(src, old(c), pair_indent as int).unwrap().1
                && DocNode::entry_datas(final(entries)@)
                    == DocNode::entry_datas(old(entries)@) + tail_block(src, old(c), pair_indent as int).unwrap().0),
        old(c).frames@.len() == 0 && entry_line_refused(src_text(src), src.opts, old(c).line as int, pair_indent as int)
            ==> r is Err,
    decreases MAX_DEPTH - old(c).depth, src.lines@.len() - old(c).line, 16int,
{
    let ghost e0 = entries@.len();
    let ghost bad = old(c).frames@.len() == 0 && entry_line_refused(src_text(src), src.opts, old(c).line as int, pair_indent as int);
    proof {
        if bad {
            assert(src_text(src)[old(c).line as int] == src.lines@[old(c).line as int]@);
        }
    }
    let ghost run = tail_block(src, old(c), pair_indent as int) is Some;
    loop
        invariant
            ok(src, c),
            old(c).line <= c.line,
            c.depth == old(c).depth,
            entries@.len() >= e0,
            e0 == old(entries)@.len(),
            entries@.len() > e0 ==> c.line > old(c).line,
            run == (tail_block(src, old(c), pair_indent as int) is Some),
            bad == (old(c).frames@.len() == 0 && entry_line_refused(src_text(src), src.opts, old(c).line as int, pair_indent as int)),
            bad ==> *c == *old(c) && src_text(src)[old(c).line as int] == src.lines@[old(c).line as int]@,
            run ==> c.frames@.len() == 0 && tail_block(src, c, pair_indent as int) is Some
                && tail_block(src, c, pair_indent as int).unwrap().1 == tail_block(src, old(c), pair_indent as int).unwrap().1
                && DocNode::entry_datas(entries@) + tail_block(src, c, pair_indent as int).unwrap().0
                    == DocNode::entry_datas(old(entries)@) + tail_block(src, old(c), pair_indent as int).unwrap().0,
        ensures
            run ==> tail_block(src, c, pair_indent as int) == Some((Seq::<(Seq<char>, crate::value::Json)>::empty(), c.line as int)),
            !bad,
        decreases src.lines@.len() - c.line,
    {
        let ghost tb0 = tail_block(src, c, pair_indent as int);
        proof {
            if run && c.line < src.lines@.len() {
                lemma_obj_block_step(src_text(src), src.opts, c.line as int, pair_indent as int, (MAX_DEPTH - c.depth) as nat);
                let l = src.lines@[c.line as int]@;
                assert(src_text(src)[c.line as int] == l);
                if comment_line(l) {
                    let e = skip_comments(src_text(src), c.line as int).unwrap();
                    lemma_comment_run_lines(src, src_text(src), c.line as int, 0);
                    if e < src.lines@.len() {
                        assert(src_text(src)[e] == src.lines@[e]@);
                    }
                } else if !ends_at(l, pair_indent as int) {
                    lemma_item_line(l, src.opts, pair_indent as int);
                }
            }
        }
        match skip_ignorable(src, c) {
            Err(e) => { return Err(e); },
            Ok(()) => {},
        }
        assert(run ==> tail_block(src, c, pair_indent as int) == tb0);
        let ghost tb = tail_block(src, c, pair_indent as int);
        let ghost here = c.line as int;
        proof {
            if run {
                lemma_obj_block_step(src_text(src), src.opts, c.line as int, pair_indent as int, (MAX_DEPTH - c.depth) as nat);
                if c.line < src.lines@.len() {
                    let l = src.lines@[c.line as int]@;
                    let j = crate::text::leading_spaces(l) as int;
                    assert(src_text(src)[c.line as int] == l);
                    if c.line + 1 < src.lines@.len() {
                        assert(src_text(src)[c.line + 1] == src.lines@[c.line + 1]@);
                        lemma_unfolded_src(src, c.line as int);
                    }
                    if !ends_at(l, pair_indent as int) {
                        lemma_item_line(l, src.opts, pair_indent as int);
                    }
                }
            }
        }
        if c.line >= src.lines.len() {
            break;
        }
        match ensure_no_tabs(src, c.line) {
            Err(e) => { return Err(e); },
            Ok(()) => {},
        }
        let line = src.lines[c.line].as_slice();
        match try_pop_close(c, line) {
            CloseGlyph::Closed => {
                c.line += 1;
                continue;
            },
            CloseGlyph::Misplaced(expected) => { return Err(misplaced_closer(src, c, line, expected)); },
            CloseGlyph::NothingOpen => { return Err(closer_with_nothing_open(src, c, line)); },
            CloseGlyph::NotACloser => {},
        }
        let lead = match leading_of_line(src, c.line) {
            Ok(l) => l,
            Err(e) => { return Err(e); },
        };
        let indent = to_logical(c, lead.indent);
        if indent < pair_indent {
            break;
        }
        if indent != pair_indent {
            let content = from(line, text_start(line, lead));
            let found = to_file(c, indent).saturating_add(1);
            let want = to_file(c, pair_indent).saturating_add(1);
            let m = if starts_with_str(content.as_slice(), "/>") {
                let mut m = lit("misplaced /> indent offset glyph: found at column ");
                append_num(&mut m, found);
                append_lit(&mut m, ", expected at column ");
                append_num(&mut m, want);
                m
            } else if starts_with_str(content.as_slice(), "/ ") {
                let mut m = lit("misplaced fold marker: found at column ");
                append_num(&mut m, found);
                append_lit(&mut m, ", expected at column ");
                append_num(&mut m, want);
                m
            } else {
                lit("expected an object entry at this indent")
            };
            let here = c.line;
            return Err(error_at_indent(src, c, here, indent, m));
        }
        let content = match unopened(line, lead) {
            Some(u) => u,
            None => { return Err(opener_where_an_entry_belongs(src, c, lead)); },
        };
        if content.len() == 0 {
            return Err(error_lit(src, c, "blank lines are not valid inside objects"));
        }
        let pending = take_pending(c);
        let ghost pend = pending@;
        let line_entries = match parse_object_line_content(src, c, content.as_slice(), pair_indent, Some(lead.indent), Vec::new()) {
            Ok(v) => v,
            Err(e) => { return Err(e); },
        };
        let mut line_entries = line_entries;
        comment_first_entry(&mut line_entries, pending, pair_indent);
        let ghost before = entries@;
        let ghost added = line_entries@;
        entries.append(&mut line_entries);
        proof {
            if run {
                DocNode::lemma_entry_datas_append(before, added);
                assert(tb.unwrap().0 =~= DocNode::entry_datas(added) + tail_block(src, c, pair_indent as int).unwrap().0);
                assert(DocNode::entry_datas(before) + DocNode::entry_datas(added) + tail_block(src, c, pair_indent as int).unwrap().0
                    =~= DocNode::entry_datas(before) + (DocNode::entry_datas(added) + tail_block(src, c, pair_indent as int).unwrap().0));
            }
        }
    }
    Ok(())
}

/// Read the entries on one object line: a key and its value, and more pairs
/// packed after two spaces. `pending` comments attach to the first entry.
#[verifier::rlimit(80)]
#[verifier::spinoff_prover]
fn parse_object_line_content(src: &Src, c: &mut Cur, content: &[char], pair_indent: usize, col0: Option<usize>, pending: Vec<RawComment>)
    -> (r: Result<Vec<DocEntry>, ParseError>)
    requires
        ok(src, old(c)),
        old(c).line < src.lines@.len(),
    ensures
        err_located(src, r),
        moved(src, old(c), final(c)),
        r is Ok ==> final(c).line > old(c).line,
        no_fold_after(src, old(c).line as int) && packed_entries(content@, src.opts) is Some
            ==> (r matches Ok(es) && DocNode::entry_datas(es@) == packed_entries(content@, src.opts).unwrap()
                && final(c).line == old(c).line + 1 && final(c).frames == old(c).frames
                && final(c).pending == old(c).pending && es@.len() > 0),
        key_only(content@, src.opts) is Some && value_below(src, old(c), old(c).line + 1, pair_indent as int) is Some
            ==> (r matches Ok(es) && DocNode::entry_datas(es@) == seq![(key_only(content@, src.opts).unwrap(),
                    value_below(src, old(c), old(c).line + 1, pair_indent as int).unwrap().0)]
                && final(c).line == value_below(src, old(c), old(c).line + 1, pair_indent as int).unwrap().1
                && final(c).frames@.len() == 0),
        no_fold_after(src, old(c).line as int) && array_entry(content@, src.opts) is Some
            && old(c).depth < MAX_DEPTH && pair_indent + 2 <= usize::MAX
            && ablk(src, old(c), old(c).line + 1, pair_indent + 2, MAX_DEPTH - old(c).depth - 1) is Some
            ==> (r matches Ok(es) && DocNode::entry_datas(es@) == seq![(array_entry(content@, src.opts).unwrap().0,
                    crate::value::Json::Array(array_entry(content@, src.opts).unwrap().1
                        + ablk(src, old(c), old(c).line + 1, pair_indent + 2, MAX_DEPTH - old(c).depth - 1).unwrap().0))]
                && final(c).line == ablk(src, old(c), old(c).line + 1, pair_indent + 2, MAX_DEPTH - old(c).depth - 1).unwrap().1
                && final(c).frames@.len() == 0),
        multiline_entry(content@, src.opts) is Some && old(c).frames@.len() == 0 && lines_fit(src)
            && multiline_read(src_text(src), src.opts, old(c).line as int, multiline_entry(content@, src.opts).unwrap().1,
                pair_indent as int) is Some
            ==> (r matches Ok(es) && DocNode::entry_datas(es@) == seq![(multiline_entry(content@, src.opts).unwrap().0,
                    crate::value::Json::Str(multiline_read(src_text(src), src.opts, old(c).line as int,
                        multiline_entry(content@, src.opts).unwrap().1, pair_indent as int).unwrap().0))]
                && final(c).line == multiline_read(src_text(src), src.opts, old(c).line as int,
                        multiline_entry(content@, src.opts).unwrap().1, pair_indent as int).unwrap().1
                && final(c).frames == old(c).frames),
        first_pair_refused(src_text(src), src.opts, old(c).line as int, content@) ==> r is Err,
    decreases MAX_DEPTH - old(c).depth, src.lines@.len() - old(c).line, 13int,
{
    let mut rest = slice_of(content, 0, content.len());
    let mut col = col0;
    let mut entries: Vec<DocEntry> = Vec::new();
    let mut pending = Some(pending);
    proof {
        assert(rest@ =~= content@);
        DocNode::lemma_datas_empty();
        crate::options::lemma_solidus_is_foreslash_like(src.opts);
        reveal_strlit(" /<");
        reveal_strlit("  ");
        assert(Seq::<(Seq<char>, crate::value::Json)>::empty() + packed_entries(content@, src.opts).unwrap()
            =~= packed_entries(content@, src.opts).unwrap());
    }
    let ghost pk = no_fold_after(src, old(c).line as int) && packed_entries(content@, src.opts) is Some;
    let ghost bad = first_pair_refused(src_text(src), src.opts, old(c).line as int, content@);
    proof {
        if old(c).line + 1 < src.lines@.len() {
            assert(src_text(src)[old(c).line + 1] == src.lines@[old(c).line + 1]@);
            lemma_unfolded_src(src, old(c).line as int);
        }
    }
    let ghost ae = no_fold_after(src, old(c).line as int) && array_entry(content@, src.opts) is Some
        && old(c).depth < MAX_DEPTH && pair_indent + 2 <= usize::MAX
        && ablk(src, old(c), old(c).line + 1, pair_indent + 2, MAX_DEPTH - old(c).depth - 1) is Some;
    let ghost me = multiline_entry(content@, src.opts) is Some && old(c).frames@.len() == 0 && lines_fit(src)
            && multiline_read(src_text(src), src.opts, old(c).line as int, multiline_entry(content@, src.opts).unwrap().1,
                pair_indent as int) is Some;
    loop
        invariant
            me == (multiline_entry(content@, src.opts) is Some && old(c).frames@.len() == 0 && lines_fit(src)
                && multiline_read(src_text(src), src.opts, old(c).line as int, multiline_entry(content@, src.opts).unwrap().1,
                    pair_indent as int) is Some),
            me ==> entries@.len() == 0 && rest@ == content@ && *c == *old(c),
            ae == (no_fold_after(src, old(c).line as int) && array_entry(content@, src.opts) is Some
                && old(c).depth < MAX_DEPTH && pair_indent + 2 <= usize::MAX
                && ablk(src, old(c), old(c).line + 1, pair_indent + 2, MAX_DEPTH - old(c).depth - 1) is Some),
            ae ==> entries@.len() == 0 && rest@ == content@ && *c == *old(c),
            ok(src, c),
            old(c).line <= c.line,
            c.line < src.lines@.len(),
            c.depth == old(c).depth,
            entries@.len() == 0 ==> (rest@ == content@ && *c == *old(c)),
            pk == (no_fold_after(src, old(c).line as int) && packed_entries(content@, src.opts) is Some),
            bad == first_pair_refused(src_text(src), src.opts, old(c).line as int, content@),
            bad ==> (unfolded(src_text(src), old(c).line + 1) <==> no_fold_after(src, old(c).line as int)),
            bad ==> entries@.len() == 0,
            pk ==> *c == *old(c) && packed_entries(rest@, src.opts) is Some
                && DocNode::entry_datas(entries@) + packed_entries(rest@, src.opts).unwrap()
                    == packed_entries(content@, src.opts).unwrap(),
            "  "@ == seq![' ', ' '],
            key_only(content@, src.opts) is Some ==> entries@.len() == 0,
            DocNode::entry_datas(Seq::<DocEntry>::empty()) == Seq::<(Seq<char>, crate::value::Json)>::empty(),
            src.opts.like(crate::options::LookalikeSet::Foreslash, '/'),
            " /<"@ == seq![' ', '/', '<'],
        decreases src.lines@.len() - c.line, rest@.len(),
    {
        let key_line = c.line;
        let prev_len = rest.len();
        let (key, form, after) = match parse_key(src, c, rest.as_slice(), pair_indent) {
            Ok(k) => k,
            Err(e) => { return Err(e); },
        };
        if c.line != key_line {
            col = None;
        } else {
            col = match col {
                Some(k) => Some(k.saturating_add(prev_len - after.len())),
                None => None,
            };
        }
        let ghost whole = packed_entries(rest@, src.opts);
        proof {
            if pk {
                let (k, p) = entry_key(rest@, src.opts).unwrap();
                let tail = rest@.subrange(p, rest@.len() as int);
                assert(after@ == tail);
                lemma_lead_value(tail, src.opts);
                if tail =~= seq![' ', '/', '<'] {
                    assert(crate::lex::first_pair(tail, ' ', ' ') == 3);
                    assert(tail.subrange(0, 3) =~= tail);
                    assert(tail.subrange(0, 3).subrange(1, 3) =~= seq!['/', '<']);
                }
                if tail.len() >= 2 && tail[0] == ' ' && tail[1] == ' ' {
                    assert(crate::lex::first_pair(tail, ' ', ' ') == 0);
                }
            }
        }
        rest = after;
        proof {
            if me {
                let (k, p) = entry_key(content@, src.opts).unwrap();
                assert(rest@ == content@.subrange(p, content@.len() as int));
                reveal_strlit(" /<");
                assert(rest@ != seq![' ', '/', '<']) by {
                    if rest@ == seq![' ', '/', '<'] {
                        assert(rest@[1] == '/');
                    }
                }
            }
            if ae {
                let (k, p) = entry_key(content@, src.opts).unwrap();
                assert(rest@ == content@.subrange(p, content@.len() as int));
                assert(rest@.subrange(2, rest@.len() as int) =~= content@.subrange(p + 2, content@.len() as int));
                assert(rest@[0] == ' ' && rest@[1] == ' ');
            }
        }
        if rest.len() == 0 || eq_str(rest.as_slice(), " /<") {
            if rest.len() > 0 {
                let glyph = to_file(c, pair_indent);
                push_glyph(c, glyph);
            }
            c.line += 1;
            let value = match parse_value_after_key(src, c, pair_indent) {
                Ok(v) => v,
                Err(e) => { return Err(e); },
            };
            let ghost read = (key@, value.data());
            proof {
                if entries@.len() == 0 {
                    assert(entries@ =~= Seq::<DocEntry>::empty());
                    assert(Seq::<(Seq<char>, crate::value::Json)>::empty().push(read) =~= seq![read]);
                }
            }
            push_entry(&mut entries, key, form, value, &mut pending, pair_indent);
            return Ok(entries);
        }
        if entries.len() > 0 && starts_with_str(rest.as_slice(), "  ") {
            return Err(error_at_col(src, c, col, lit("a packed array is not a BASIC TYPE, so it cannot share a line with another key-value pair; consider unpacking this line onto multiple lines")));
        }
        let before = c.line;
        let (value, consumed) = match parse_inline_value(src, c, rest.as_slice(), pair_indent, Context::ObjectValue, col) {
            Ok(v) => v,
            Err(e) => { return Err(e); },
        };
        let ghost read = (key@, value.data());
        proof {
            if entries@.len() == 0 {
                assert(entries@ =~= Seq::<DocEntry>::empty());
                assert(Seq::<(Seq<char>, crate::value::Json)>::empty().push(read) =~= seq![read]);
            }
        }
        push_entry(&mut entries, key, form, value, &mut pending, pair_indent);
        let n = match consumed {
            None => { return Ok(entries); },
            Some(n) => n,
        };
        assert(c.line == before);
        let ghost value_text = rest@;
        rest = from(rest.as_slice(), n);
        proof {
            if pk {
                let (k, v) = (key@, read.1);
                if rest@.len() > 0 {
                    crate::text::lemma_leading_spaces_bound(rest@);
                    if crate::text::all_spaces(rest@) {
                        crate::text::lemma_leading_spaces_unique(rest@, rest@.len() as nat);
                    }
                    assert(value_text.subrange(n as int, value_text.len() as int) == rest@);
                    assert(rest@.subrange(0, 2) =~= seq![' ', ' ']);
                }
            }
        }
        if rest.len() == 0 {
            proof {
                if pk {
                    assert(DocNode::entry_datas(entries@) =~= packed_entries(content@, src.opts).unwrap());
                }
            }
            c.line += 1;
            return Ok(entries);
        }
        if is_all_spaces_vec(rest.as_slice()) {
            if matches!(src.opts.trailing_spaces_policy(), TrailingSpaces::Discard) {
                c.line += 1;
                return Ok(entries);
            }
            return Err(error_lit(src, c, "this line ends with spaces that carry nothing -- delete them"));
        }
        if !starts_with_str(rest.as_slice(), "  ") {
            return Err(error_lit(src, c, "expected at least two spaces between object entries on the same line"));
        }
        let sc = count_leading_spaces(rest.as_slice());
        let ghost spaced = rest@;
        rest = from(rest.as_slice(), sc);
        proof {
            if pk {
                let more = packed_entries(rest@, src.opts).unwrap();
                assert(whole.unwrap() =~= seq![read] + more);
                assert(DocNode::entry_datas(entries@) + more =~= DocNode::entry_datas(entries@).drop_last() + (seq![read] + more));
            }
        }
        col = match col {
            Some(k) => Some(k.saturating_add(n).saturating_add(sc)),
            None => None,
        };
        if rest.len() == 0 {
            c.line += 1;
            return Ok(entries);
        }
    }
}

/// The comments before entry `e` are those that `p` gives an entry at
/// `level`, in order, and no others.
#[verifier::opaque]
pub open spec fn first_comments(e: DocEntry, p: Seq<RawComment>, level: usize) -> bool {
    comments_added(Seq::empty(), e.comments_spec(), p, level)
}

/// Give the first entry of a line the comments gathered above the line.
fn comment_first_entry(entries: &mut Vec<DocEntry>, pending: Vec<RawComment>, level: usize)
    ensures
        DocNode::entry_datas(final(entries)@) == DocNode::entry_datas(old(entries)@),
        final(entries)@.len() == old(entries)@.len(),
        final(entries)@.len() > 0 ==> first_comments(final(entries)@[0], pending@, level),
        forall|i: int| 0 < i < final(entries)@.len() ==> #[trigger] final(entries)@[i] == old(entries)@[i],
{
    if entries.len() > 0 {
        let ghost was = entries@;
        let mut first = entries.remove(0);
        let cs = Comment::classify_all(pending, level);
        first.set_comments_before(cs);
        entries.insert(0, first);
        proof {
            reveal(first_comments);
            assert(entries@ =~= was.update(0, first));
            DocNode::lemma_entry_datas_update(was, 0, first);
            assert(first.comments_spec().subrange(0, 0) =~= Seq::<Comment>::empty());
        }
    }
}

fn push_entry(entries: &mut Vec<DocEntry>, key: String, form: KeyForm, value: DocNode, pending: &mut Option<Vec<RawComment>>, level: usize)
    ensures
        DocNode::entry_datas(final(entries)@) == DocNode::entry_datas(old(entries)@).push((key@, value.data())),
        final(entries)@.len() == old(entries)@.len() + 1,
        final(entries)@.last().key_form_spec() == Some(form),
        *final(pending) is None,
        match *old(pending) {
            Some(p) => first_comments(final(entries)@.last(), p@, level),
            None => final(entries)@.last().comments_spec().len() == 0,
        },
        old(entries)@.len() > 0 ==> final(entries)@[0] == old(entries)@[0],
{
    reveal(first_comments);
    let mut entry = DocEntry::new(key, value);
    entry.set_key_form(Some(form));
    assert(entry.comments_spec() =~= Seq::<Comment>::empty());
    match pending.take() {
        Some(p) => {
            if p.len() > 0 {
                attach_entry_comments(&mut entry, p, level);
            } else {
                assert(entry.comments_spec().subrange(0, 0) =~= Seq::<Comment>::empty());
            }
        },
        None => {},
    }
    proof { DocNode::lemma_entry_datas_push(entries@, entry); }
    entries.push(entry);
}

fn push_element(elements: &mut Vec<DocNode>, value: DocNode, pending: &mut Option<Vec<RawComment>>, level: usize)
    ensures
        final(elements)@.len() == old(elements)@.len() + 1,
        DocNode::datas(final(elements)@) == DocNode::datas(old(elements)@).push(value.data()),
{
    let mut value = value;
    match pending.take() {
        Some(p) => {
            if p.len() > 0 {
                attach_node_comments(&mut value, p, level);
            }
        },
        None => {},
    }
    proof { DocNode::lemma_datas_push(elements@, value); }
    elements.push(value);
}

/// Read the value of a key whose line ended at its colon (or at ` /<`): it
/// starts on the next line.
#[verifier::rlimit(60)]
#[verifier::spinoff_prover]
fn parse_value_after_key(src: &Src, c: &mut Cur, pair_indent: usize) -> (r: Result<DocNode, ParseError>)
    requires
        ok(src, old(c)),
    ensures
        err_located(src, r),
        moved(src, old(c), final(c)),
        value_below(src, old(c), old(c).line as int, pair_indent as int) is Some
            ==> (r matches Ok(n) && n.data() == value_below(src, old(c), old(c).line as int, pair_indent as int).unwrap().0
                && final(c).line == value_below(src, old(c), old(c).line as int, pair_indent as int).unwrap().1
                && final(c).frames@.len() == 0),
    decreases MAX_DEPTH - old(c).depth, src.lines@.len() - old(c).line, 18int,
{
    proof {
        if value_below(src, c, c.line as int, pair_indent as int) is Some {
            assert(src_text(src)[c.line as int] == src.lines@[c.line as int]@);
            if item_line(src.lines@[c.line as int]@, src.opts, pair_indent + 2) {
                lemma_item_line(src.lines@[c.line as int]@, src.opts, pair_indent + 2);
            } else if element_line(src.lines@[c.line as int]@, src.opts, pair_indent + 2) is Some {
                lemma_element_line(src.lines@[c.line as int]@, src.opts, pair_indent + 2);
                lemma_arr_block_step(src_text(src), src.opts, c.line as int, pair_indent + 2, (MAX_DEPTH - c.depth - 1) as nat);
                if c.line + 1 < src.lines@.len() {
                    assert(src_text(src)[c.line + 1] == src.lines@[c.line + 1]@);
                    lemma_unfolded_src(src, c.line as int);
                }
            } else if array_open_line(src.lines@[c.line as int]@, src.opts, pair_indent as int) is Some {
                lemma_array_open_line(src.lines@[c.line as int]@, src.opts, pair_indent as int);
                lemma_unfolded_src(src, c.line as int);
                assert(src.lines@[c.line as int]@.len() <= usize::MAX);
            } else {
                lemma_pipe_line(src.lines@[c.line as int]@, src.opts, pair_indent + 2);
            }
        }
    }
    match skip_ignorable(src, c) {
        Err(e) => { return Err(e); },
        Ok(()) => {},
    }
    let child = deeper(pair_indent, 1);
    if c.line >= src.lines.len() {
        let here = c.line;
        return Err(error_at_line(src, here, 0, lit("expected a nested value")));
    }
    match ensure_no_tabs(src, c.line) {
        Err(e) => { return Err(e); },
        Ok(()) => {},
    }
    let line = src.lines[c.line].as_slice();
    let lead = match leading_of_line(src, c.line) {
        Ok(l) => l,
        Err(e) => { return Err(e); },
    };
    let indent = to_logical(c, lead.indent);
    match unopened(line, lead) {
        Some(u) => {
            if starts_with_marker_chain(u.as_slice()) && (indent == pair_indent || indent == child) {
                return parse_marker_chain_line(src, c, u.as_slice(), indent);
            }
            if indent == pair_indent && starts_with_str(u.as_slice(), "/ ") {
                proof { reveal_strlit("/ "); }
                let cont = from(u.as_slice(), 2);
                let before = c.line;
                let (value, consumed) = match parse_inline_value(src, c, cont.as_slice(), pair_indent, Context::ObjectValue, Some(lead.indent.saturating_add(2))) {
                    Ok(v) => v,
                    Err(e) => { return Err(e); },
                };
                if consumed.is_some() {
                    assert(c.line == before);
                    c.line += 1;
                }
                return Ok(value);
            }
        },
        None => {},
    }
    if matches!(lead.opener, Opener::Glyph) && indent == pair_indent {
        let glyph = to_file(c, pair_indent);
        push_glyph(c, glyph);
        c.line += 1;
        return parse_value_after_key(src, c, pair_indent);
    }
    if indent < child {
        return Err(error_lit(src, c, "nested values must be indented by two spaces"));
    }
    let extra = (indent - child) / 2;
    if extra > 0 && matches!(src.opts.missing_indent_marker_policy(), MissingIndentMarker::Infer) {
        if extra > MAX_DEPTH - c.depth {
            return Err(too_deep(src, c));
        }
        let mut value = match parse_value_below(src, c, deeper(child, extra - 1)) {
            Ok(v) => v,
            Err(e) => { return Err(e); },
        };
        let mut k: usize = 0;
        while k < extra
            decreases extra - k,
        {
            let mut one: Vec<DocNode> = Vec::new();
            one.push(value);
            value = array_node(one, false);
            k += 1;
        }
        return Ok(value);
    }
    parse_value_below(src, c, pair_indent)
}

/// The value on the current line, one level below `pair_indent`: a marker
/// chain, or an implicit object or array.
#[verifier::rlimit(60)]
#[verifier::spinoff_prover]
fn parse_value_below(src: &Src, c: &mut Cur, pair_indent: usize) -> (r: Result<DocNode, ParseError>)
    requires
        ok(src, old(c)),
    ensures
        err_located(src, r),
        moved(src, old(c), final(c)),
        value_below(src, old(c), old(c).line as int, pair_indent as int) is Some
            ==> (r matches Ok(n) && n.data() == value_below(src, old(c), old(c).line as int, pair_indent as int).unwrap().0
                && final(c).line == value_below(src, old(c), old(c).line as int, pair_indent as int).unwrap().1
                && final(c).frames@.len() == 0),
    decreases MAX_DEPTH - old(c).depth, src.lines@.len() - old(c).line, 17int,
{
    proof {
        if value_below(src, c, c.line as int, pair_indent as int) is Some {
            assert(src_text(src)[c.line as int] == src.lines@[c.line as int]@);
            if item_line(src.lines@[c.line as int]@, src.opts, pair_indent + 2) {
                lemma_item_line(src.lines@[c.line as int]@, src.opts, pair_indent + 2);
            } else if element_line(src.lines@[c.line as int]@, src.opts, pair_indent + 2) is Some {
                lemma_element_line(src.lines@[c.line as int]@, src.opts, pair_indent + 2);
                lemma_arr_block_step(src_text(src), src.opts, c.line as int, pair_indent + 2, (MAX_DEPTH - c.depth - 1) as nat);
                if c.line + 1 < src.lines@.len() {
                    assert(src_text(src)[c.line + 1] == src.lines@[c.line + 1]@);
                    lemma_unfolded_src(src, c.line as int);
                }
            } else if array_open_line(src.lines@[c.line as int]@, src.opts, pair_indent as int) is Some {
                lemma_array_open_line(src.lines@[c.line as int]@, src.opts, pair_indent as int);
                lemma_unfolded_src(src, c.line as int);
                assert(src.lines@[c.line as int]@.len() <= usize::MAX);
            } else {
                lemma_pipe_line(src.lines@[c.line as int]@, src.opts, pair_indent + 2);
            }
        }
    }
    if c.line >= src.lines.len() {
        return Err(error_lit(src, c, "expected a nested value"));
    }
    let line = src.lines[c.line].as_slice();
    let lead = match leading_of_line(src, c.line) {
        Ok(l) => l,
        Err(e) => { return Err(e); },
    };
    let indent = to_logical(c, lead.indent);
    let child = deeper(pair_indent, 1);
    match unopened(line, lead) {
        Some(u) => {
            if starts_with_marker_chain(u.as_slice()) && (indent == pair_indent || indent == child) {
                return parse_marker_chain_line(src, c, u.as_slice(), indent);
            }
        },
        None => {},
    }
    let content = content_at(c, line, child);
    proof {
        if value_below(src, old(c), old(c).line as int, pair_indent as int) is Some {
            lemma_below_value(src_text(src), src.opts, c.line as int, pair_indent + 2, (MAX_DEPTH - c.depth - 1) as nat);
            let l = src_text(src)[c.line as int];
            if !item_line(l, src.opts, pair_indent + 2) && element_line(l, src.opts, pair_indent + 2) is None {
                lemma_table_follow(src, c.line as int, pair_indent + 2);
            }
        }
    }
    match looks_like_object_start(src, c, content.as_slice(), child) {
        Err(e) => Err(e),
        Ok(true) => parse_implicit_object(src, c, pair_indent),
        Ok(false) => parse_implicit_array(src, c, pair_indent),
    }
}

/// A value alone on its line at the document's outermost level.
fn parse_standalone_scalar_line(src: &Src, c: &mut Cur, content: &[char], at: usize, indent: usize) -> (r: Result<DocNode, ParseError>)
    requires
        ok(src, old(c)),
        old(c).line < src.lines@.len(),
    ensures
        err_located(src, r),
        moved(src, old(c), final(c)),
        no_fold_after(src, old(c).line as int) && lone_scalar(content@, src.opts) is Some
            ==> (r matches Ok(n) && lone_scalar(content@, src.opts) == Some(n.data())
                && final(c).line == old(c).line + 1 && final(c).frames == old(c).frames),
    decreases MAX_DEPTH - old(c).depth, src.lines@.len() - old(c).line, 12int,
{
    if is_minimal_json_candidate(content) {
        let v = match parse_minimal_json_line(src, c, content, at) {
            Ok(v) => v,
            Err(e) => { return Err(e); },
        };
        c.line += 1;
        return Ok(v);
    }
    let (value, consumed) = match parse_inline_value(src, c, content, indent, Context::SingleValue, Some(at)) {
        Ok(v) => v,
        Err(e) => { return Err(e); },
    };
    match consumed {
        Some(n) => {
            if n != content.len() {
                return Err(error_lit(src, c, "only one value may appear here"));
            }
            c.line += 1;
        },
        None => {},
    }
    Ok(value)
}

/// Read an array's elements, one container deeper.
fn parse_array_tail(src: &Src, c: &mut Cur, parent_indent: usize, elements: &mut Vec<DocNode>) -> (r: Result<(), ParseError>)
    requires
        ok(src, old(c)),
    ensures
        err_located(src, r),
        moved(src, old(c), final(c)),
        final(elements)@.len() >= old(elements)@.len(),
        r is Ok ==> (final(elements)@.len() > old(elements)@.len() ==> final(c).line > old(c).line),
        old(c).depth < MAX_DEPTH && parent_indent + 2 <= usize::MAX
            && ablk(src, old(c), old(c).line as int, parent_indent + 2, MAX_DEPTH - old(c).depth - 1) is Some
            ==> (r is Ok && final(c).frames@.len() == 0
                && final(c).line == ablk(src, old(c), old(c).line as int, parent_indent + 2, MAX_DEPTH - old(c).depth - 1).unwrap().1
                && DocNode::datas(final(elements)@) == DocNode::datas(old(elements)@)
                    + ablk(src, old(c), old(c).line as int, parent_indent + 2, MAX_DEPTH - old(c).depth - 1).unwrap().0),
    decreases MAX_DEPTH - old(c).depth, src.lines@.len() - old(c).line, 5int,
{
    if c.depth >= MAX_DEPTH {
        return Err(too_deep(src, c));
    }
    c.depth += 1;
    let r = array_tail(src, c, parent_indent, elements);
    c.depth -= 1;
    r
}

#[verifier::rlimit(100)]
#[verifier::spinoff_prover]
fn array_tail(src: &Src, c: &mut Cur, parent_indent: usize, elements: &mut Vec<DocNode>) -> (r: Result<(), ParseError>)
    requires
        ok(src, old(c)),
    ensures
        err_located(src, r),
        moved(src, old(c), final(c)),
        final(elements)@.len() >= old(elements)@.len(),
        r is Ok ==> (final(elements)@.len() > old(elements)@.len() ==> final(c).line > old(c).line),
        parent_indent + 2 <= usize::MAX && ablk(src, old(c), old(c).line as int, parent_indent + 2, MAX_DEPTH - old(c).depth) is Some
            ==> (r is Ok && final(c).frames@.len() == 0
                && final(c).line == ablk(src, old(c), old(c).line as int, parent_indent + 2, MAX_DEPTH - old(c).depth).unwrap().1
                && DocNode::datas(final(elements)@) == DocNode::datas(old(elements)@)
                    + ablk(src, old(c), old(c).line as int, parent_indent + 2, MAX_DEPTH - old(c).depth).unwrap().0),
    decreases MAX_DEPTH - old(c).depth, src.lines@.len() - old(c).line, 16int,
{
    let ghost e0 = elements@.len();
    let elem = deeper(parent_indent, 1);
    let ghost run = parent_indent + 2 <= usize::MAX && ablk(src, old(c), old(c).line as int, parent_indent + 2, MAX_DEPTH - old(c).depth) is Some;
    loop
        invariant
            ok(src, c),
            old(c).line <= c.line,
            c.depth == old(c).depth,
            elements@.len() >= e0,
            e0 == old(elements)@.len(),
            elements@.len() > e0 ==> c.line > old(c).line,
            run == (parent_indent + 2 <= usize::MAX && ablk(src, old(c), old(c).line as int, parent_indent + 2, MAX_DEPTH - old(c).depth) is Some),
            run ==> elem == parent_indent + 2,
            run ==> c.frames@.len() == 0 && ablk(src, c, c.line as int, elem as int, MAX_DEPTH - c.depth) is Some
                && ablk(src, c, c.line as int, elem as int, MAX_DEPTH - c.depth).unwrap().1 == ablk(src, old(c), old(c).line as int, elem as int, MAX_DEPTH - old(c).depth).unwrap().1
                && DocNode::datas(elements@) + ablk(src, c, c.line as int, elem as int, MAX_DEPTH - c.depth).unwrap().0
                    == DocNode::datas(old(elements)@) + ablk(src, old(c), old(c).line as int, elem as int, MAX_DEPTH - old(c).depth).unwrap().0,
        ensures
            run ==> ablk(src, c, c.line as int, elem as int, MAX_DEPTH - c.depth) == Some((Seq::<crate::value::Json>::empty(), c.line as int)),
        decreases src.lines@.len() - c.line,
    {
        let ghost ab0 = ablk(src, c, c.line as int, elem as int, MAX_DEPTH - c.depth);
        proof {
            if run && c.line < src.lines@.len() {
                lemma_arr_block_step(src_text(src), src.opts, c.line as int, elem as int, (MAX_DEPTH - c.depth) as nat);
                let l = src.lines@[c.line as int]@;
                assert(src_text(src)[c.line as int] == l);
                if comment_line(l) {
                    let e = skip_comments(src_text(src), c.line as int).unwrap();
                    lemma_comment_run_lines(src, src_text(src), c.line as int, 0);
                    if e < src.lines@.len() {
                        assert(src_text(src)[e] == src.lines@[e]@);
                    }
                } else if !ends_at(l, elem as int) {
                    if element_line(l, src.opts, elem as int) is Some {
                        lemma_element_line(l, src.opts, elem as int);
                    } else {
                        lemma_open_line(l, src.opts, elem as int);
                    }
                }
            }
        }
        match skip_ignorable(src, c) {
            Err(e) => { return Err(e); },
            Ok(()) => {},
        }
        assert(run ==> ablk(src, c, c.line as int, elem as int, MAX_DEPTH - c.depth) == ab0);
        let ghost ab = ablk(src, c, c.line as int, elem as int, MAX_DEPTH - c.depth);
        proof {
            if run {
                lemma_arr_block_step(src_text(src), src.opts, c.line as int, elem as int, (MAX_DEPTH - c.depth) as nat);
                if c.line < src.lines@.len() {
                    let l = src.lines@[c.line as int]@;
                    let j = crate::text::leading_spaces(l) as int;
                    assert(src_text(src)[c.line as int] == l);
                    if c.line + 1 < src.lines@.len() {
                        assert(src_text(src)[c.line + 1] == src.lines@[c.line + 1]@);
                        lemma_unfolded_src(src, c.line as int);
                    }
                    if !ends_at(l, elem as int) {
                        if element_line(l, src.opts, elem as int) is Some {
                            lemma_element_line(l, src.opts, elem as int);
                        } else {
                            lemma_open_line(l, src.opts, elem as int);
                            assert(src.lines@[c.line as int]@.len() <= usize::MAX);
                        }
                    }
                }
            }
        }
        if c.line >= src.lines.len() {
            break;
        }
        match ensure_no_tabs(src, c.line) {
            Err(e) => { return Err(e); },
            Ok(()) => {},
        }
        let line = src.lines[c.line].as_slice();
        match try_pop_close(c, line) {
            CloseGlyph::Closed => {
                c.line += 1;
                continue;
            },
            CloseGlyph::Misplaced(expected) => { return Err(misplaced_closer(src, c, line, expected)); },
            CloseGlyph::NothingOpen => { return Err(closer_with_nothing_open(src, c, line)); },
            CloseGlyph::NotACloser => {},
        }
        let lead = match leading_of_line(src, c.line) {
            Ok(l) => l,
            Err(e) => { return Err(e); },
        };
        let indent = to_logical(c, lead.indent);
        if indent < parent_indent {
            break;
        }
        let un = unopened(line, lead);
        let chain = match &un {
            Some(u) => starts_with_marker_chain(u.as_slice()),
            None => false,
        };
        if chain && indent == elem {
            let u = match un { Some(u) => u, None => Vec::new() };
            let ghost before = DocNode::datas(elements@);
            match marker_element(src, c, u.as_slice(), elem, elements) {
                Err(e) => { return Err(e); },
                Ok(()) => {},
            }
            proof {
                if run {
                    let rest = ablk(src, c, c.line as int, elem as int, MAX_DEPTH - c.depth).unwrap().0;
                    let v = ab.unwrap().0[0];
                    assert(before.push(v) + rest =~= before + (seq![v] + rest));
                }
            }
            continue;
        }
        if indent < elem {
            break;
        }
        let has_opener = match lead.opener {
            Opener::Nothing => false,
            _ => true,
        };
        if has_opener && indent == elem {
            if matches!(lead.opener, Opener::Glyph) {
                push_glyph(c, lead.indent);
                c.line += 1;
                continue;
            }
            let pending = take_pending(c);
            let content = from(line, lead.indent);
            let ghost ghost_before = elements@;
            let ghost vs = element_line(src_text(src)[c.line as int], src.opts, elem as int);
            match parse_array_line_content(src, c, content.as_slice(), elem, elements, Some(lead.indent), pending) {
                Err(e) => { return Err(e); },
                Ok(()) => {},
            }
            proof {
                if run {
                    let d = DocNode::datas(ghost_before);
                    let rest = ablk(src, c, c.line as int, elem as int, MAX_DEPTH - c.depth).unwrap().0;
                    assert(d + vs.unwrap() + rest =~= d + (vs.unwrap() + rest));
                }
            }
            continue;
        }
        if matches!(lead.opener, Opener::Glyph) && indent == deeper(elem, 1) {
            push_glyph(c, lead.indent);
            let pending = take_pending(c);
            c.line += 1;
            let mut sub: Vec<DocNode> = Vec::new();
            match parse_array_tail(src, c, elem, &mut sub) {
                Err(e) => { return Err(e); },
                Ok(()) => {},
            }
            let mut node = array_node(sub, false);
            if pending.len() > 0 {
                attach_node_comments(&mut node, pending, elem);
            }
            elements.push(node);
            continue;
        }
        if indent == deeper(elem, 1) && elements.len() > 0 {
            let opens_object = match &un {
                Some(u) => match looks_like_object_start(src, c, u.as_slice(), indent) {
                    Ok(b) => b,
                    Err(e) => { return Err(e); },
                },
                None => false,
            };
            let pending = take_pending(c);
            let nested = if opens_object {
                parse_implicit_object(src, c, elem)
            } else {
                parse_implicit_array(src, c, elem)
            };
            let mut nested = match nested {
                Ok(v) => v,
                Err(e) => { return Err(e); },
            };
            if pending.len() > 0 {
                attach_node_comments(&mut nested, pending, elem);
            }
            elements.push(nested);
            continue;
        }
        if indent != elem {
            return Err(error_lit(src, c, "invalid indent level: array elements must be indented by exactly two spaces"));
        }
        let ts = text_start(line, lead);
        let content = from(line, ts);
        if content.len() == 0 {
            return Err(error_lit(src, c, "blank lines are not valid inside arrays"));
        }
        if content[0] == '|' {
            return Err(error_lit(src, c, "table arrays are only valid as the entire array"));
        }
        let pending = take_pending(c);
        let ghost ghost_before = elements@;
        let ghost vs = element_line(src_text(src)[c.line as int], src.opts, elem as int);
        if is_minimal_json_candidate(content.as_slice()) {
            let mut v = match parse_minimal_json_line(src, c, content.as_slice(), ts) {
                Ok(v) => v,
                Err(e) => { return Err(e); },
            };
            if pending.len() > 0 {
                attach_node_comments(&mut v, pending, elem);
            }
            proof { DocNode::lemma_datas_push(elements@, v); }
            elements.push(v);
            c.line += 1;
            proof {
                if run {
                    assert(DocNode::datas(ghost_before).push(v.data()) =~= DocNode::datas(ghost_before) + vs.unwrap());
                }
            }
        } else {
            match parse_array_line_content(src, c, content.as_slice(), elem, elements, Some(ts), pending) {
                Err(e) => { return Err(e); },
                Ok(()) => {},
            }
        }
        proof {
            if run {
                let d = DocNode::datas(ghost_before);
                let rest = ablk(src, c, c.line as int, elem as int, MAX_DEPTH - c.depth).unwrap().0;
                assert(d + vs.unwrap() + rest =~= d + (vs.unwrap() + rest));
            }
        }
    }
    Ok(())
}

/// One element of an array that a line of nesting markers at `elem` opens.
fn marker_element(src: &Src, c: &mut Cur, u: &[char], elem: usize, elements: &mut Vec<DocNode>) -> (r: Result<(), ParseError>)
    requires
        ok(src, old(c)),
        old(c).line < src.lines@.len(),
    ensures
        err_located(src, r),
        moved(src, old(c), final(c)),
        r is Ok ==> final(c).line > old(c).line,
        r is Ok ==> final(elements)@.len() == old(elements)@.len() + 1,
        final(elements)@.len() >= old(elements)@.len(),
        opened(src, old(c), u@, elem as int) is Some
            ==> (r is Ok && DocNode::datas(final(elements)@) == DocNode::datas(old(elements)@).push(
                    crate::value::Json::Object(opened(src, old(c), u@, elem as int).unwrap().0))
                && final(c).line == opened(src, old(c), u@, elem as int).unwrap().1
                && final(c).frames@.len() == 0),
    decreases MAX_DEPTH - old(c).depth, src.lines@.len() - old(c).line, 15int,
{
    let pending = take_pending(c);
    proof {
        assert(opened(src, c, u@, elem as int) == opened(src, old(c), u@, elem as int));
    }
    let mut value = match parse_marker_chain_line(src, c, u, elem) {
        Ok(v) => v,
        Err(e) => { return Err(e); },
    };
    if pending.len() > 0 {
        attach_node_comments(&mut value, pending, elem);
    }
    proof { DocNode::lemma_datas_push(elements@, value); }
    elements.push(value);
    Ok(())
}

/// Spaces left at the end of a line between values: `Ok(true)` when the
/// policy discards them and the line is done.
fn trailing_spaces_end_the_line(src: &Src, c: &Cur, rest: &[char], at: Option<usize>) -> (r: Result<bool, ParseError>)
    ensures
        err_located(src, r),
        rest@.len() == 0 || !crate::text::all_spaces(rest@) ==> r == Ok::<bool, ParseError>(false),
        rest@.len() > 0 && crate::text::all_spaces(rest@) ==> match src.opts.trailing_spaces_spec() {
            TrailingSpaces::Discard => r == Ok::<bool, ParseError>(true),
            TrailingSpaces::Reject => r is Err,
        },
{
    if rest.len() == 0 || !crate::text::is_all_spaces(rest) {
        return Ok(false);
    }
    match src.opts.trailing_spaces_policy() {
        TrailingSpaces::Discard => Ok(true),
        TrailingSpaces::Reject => Err(error_at_col(src, c, at, lit("this line ends with spaces that carry nothing -- delete them"))),
    }
}

fn plus(col0: Option<usize>, n: usize) -> (r: Option<usize>)
    ensures
        match col0 {
            Some(k) => r == Some(if k + n <= usize::MAX { (k + n) as usize } else { usize::MAX }),
            None => r is None,
        },
{
    match col0 {
        Some(k) => Some(k.saturating_add(n)),
        None => None,
    }
}

/// Read the elements on one array line, packed after `, ` or two spaces.
/// `pending` comments attach to the first element.
#[verifier::rlimit(80)]
#[verifier::spinoff_prover]
fn parse_array_line_content(src: &Src, c: &mut Cur, content: &[char], elem_indent: usize, elements: &mut Vec<DocNode>, col0: Option<usize>, pending: Vec<RawComment>)
    -> (r: Result<(), ParseError>)
    requires
        ok(src, old(c)),
        old(c).line < src.lines@.len(),
    ensures
        err_located(src, r),
        moved(src, old(c), final(c)),
        final(elements)@.len() >= old(elements)@.len(),
        r is Ok ==> final(c).line > old(c).line,
        no_fold_after(src, old(c).line as int) && !crate::lex::minimal_json_candidate(content@)
            && lone_scalar(content@, src.opts) is Some
            ==> (r is Ok && DocNode::datas(final(elements)@)
                    == DocNode::datas(old(elements)@).push(lone_scalar(content@, src.opts).unwrap())
                && final(c).line == old(c).line + 1 && final(c).frames == old(c).frames),
        no_fold_after(src, old(c).line as int) && packed_items(content@, src.opts) is Some
            ==> (r is Ok && DocNode::datas(final(elements)@)
                    == DocNode::datas(old(elements)@) + packed_items(content@, src.opts).unwrap()
                && final(c).line == old(c).line + 1 && final(c).frames == old(c).frames),
        no_fold_after(src, old(c).line as int) && mixed_packing(content@, src.opts) ==> r is Err,
    decreases MAX_DEPTH - old(c).depth, src.lines@.len() - old(c).line, 7int,
{
    let ghost al = no_fold_after(src, old(c).line as int) && !crate::lex::minimal_json_candidate(content@)
        && lone_scalar(content@, src.opts) is Some;
    let ghost pk = no_fold_after(src, old(c).line as int) && packed_items(content@, src.opts) is Some;
    let ghost bare0 = content@.len() > 0 && (content@[0] == ' ' || content@[0] == '_');
    let ghost mx = no_fold_after(src, old(c).line as int) && mixed_packing(content@, src.opts);
    proof {
        reveal(mixed_packing);
        if pk {
            assert(DocNode::datas(old(elements)@) + packed_items(content@, src.opts).unwrap()
                == DocNode::datas(old(elements)@) + packed_run(content@, src.opts, bare0).unwrap());
        }
    }
    let mut rest = slice_of(content, 0, content.len());
    proof { assert(rest@ =~= content@); }
    let mut comma_packed = false;
    let mut space_packed = false;
    let mut saw_bare = false;
    let mut saw_non_bare = false;
    let mut bare_holds_comma = false;
    let mut bare_scalar: Option<Vec<char>> = None;
    let mut pending = Some(pending);
    loop
        invariant
            ok(src, c),
            c.line == old(c).line,
            c.line < src.lines@.len(),
            c.depth == old(c).depth,
            rest@.len() <= content@.len(),
            elements@.len() >= old(elements)@.len(),
            al == (no_fold_after(src, old(c).line as int) && !crate::lex::minimal_json_candidate(content@)
                && lone_scalar(content@, src.opts) is Some),
            al ==> rest@ == content@ && *c == *old(c) && elements@ == old(elements)@
                && !comma_packed && !space_packed,
            pk == (no_fold_after(src, old(c).line as int) && packed_items(content@, src.opts) is Some),
            bare0 == (content@.len() > 0 && (content@[0] == ' ' || content@[0] == '_')),
            pk ==> *c == *old(c) && packed_run(rest@, src.opts, bare0) is Some
                && DocNode::datas(elements@) + packed_run(rest@, src.opts, bare0).unwrap()
                    == DocNode::datas(old(elements)@) + packed_items(content@, src.opts).unwrap()
                && (bare0 ==> !comma_packed && !saw_non_bare)
                && (!bare0 ==> !space_packed && !saw_bare && !bare_holds_comma),
            mx == (no_fold_after(src, old(c).line as int) && mixed_packing(content@, src.opts)),
            mx ==> *c == *old(c) && ({
                ||| (rest@ == content@ && !comma_packed && !space_packed && !saw_bare && !saw_non_bare
                        && mixed_packing(rest@, src.opts))
                ||| (comma_packed && saw_non_bare && !saw_bare && !space_packed && !bare_holds_comma
                        && rest@.len() > 0 && !crate::text::all_spaces(rest@)
                        && ((rest@[0] == ' ' || rest@[0] == '_') || mixed_packing(rest@, src.opts)))
                ||| (space_packed && saw_bare && !saw_non_bare && !comma_packed
                        && rest@.len() > 0 && !crate::text::all_spaces(rest@)
                        && (!(rest@[0] == ' ' || rest@[0] == '_') || mixed_packing(rest@, src.opts)))
            }),
        decreases rest@.len(),
    {
        let ghost run = packed_run(rest@, src.opts, bare0);
        proof {
            if pk {
                lemma_packed_head(rest@, src.opts);
            }
        }
        let col = plus(col0, content.len() - rest.len());
        let packing = if space_packed { Packing::Space } else if comma_packed { Packing::Comma } else { Packing::Undetermined };
        let element_is_bare = rest.len() > 0 && (rest[0] == ' ' || rest[0] == '_');
        let (value, consumed) = match parse_inline_value(src, c, rest.as_slice(), elem_indent, Context::ArrayLine(packing), col) {
            Ok(v) => v,
            Err(e) => { return Err(e); },
        };
        if element_is_bare {
            saw_bare = true;
            match value.as_str() {
                Some(text) => {
                    let t = crate::text::to_chars(text);
                    if crate::text::find_char(t.as_slice(), ',').is_some() {
                        bare_holds_comma = true;
                    }
                    if bare_scalar.is_none() && scalar_spelling(t.as_slice()).is_some() {
                        bare_scalar = Some(t);
                    }
                },
                None => {},
            }
        } else {
            saw_non_bare = true;
        }
        if comma_packed {
            if saw_bare && saw_non_bare {
                return Err(mixed_pack_error(src, c, col, &bare_scalar));
            }
            if bare_holds_comma {
                return Err(bare_comma_error(src, c, col));
            }
        }
        if space_packed && saw_non_bare {
            return Err(error_at_col(src, c, col, lit("a space separated packed array requires every element to be a bare string; consider unpacking this line onto multiple lines")));
        }
        let ghost before = DocNode::datas(elements@);
        push_element(elements, value, &mut pending, elem_indent);
        proof {
            reveal(mixed_packing);
            if mx {
                assert(mixed_packing(rest@, src.opts));
                assert(packed_item(rest@, src.opts) is Some);
            }
        }
        let n = match consumed {
            None => { return Ok(()); },
            Some(n) => n,
        };
        let ghost whole = rest@;
        rest = from(rest.as_slice(), n);
        proof {
            reveal(mixed_packing);
            if mx {
                assert(mixed_packing(whole, src.opts));
                let (v, m, b) = packed_item(whole, src.opts).unwrap();
                assert(n == m);
                let tail = whole.subrange(m + 2, whole.len() as int);
                assert(rest@ =~= whole.subrange(m, whole.len() as int));
                assert(rest@.subrange(2, rest@.len() as int) =~= tail);
                assert(rest@[0] == whole[m] && rest@[1] == whole[m + 1]);
                assert(!crate::text::all_spaces(rest@)) by {
                    let w = choose|i: int| 0 <= i < tail.len() && tail[i] != ' ';
                    assert(rest@[w + 2] == tail[w]);
                }
                reveal_strlit(", ");
                reveal_strlit("  ");
                reveal_strlit(",");
                assert(", "@ =~= seq![',', ' ']);
                assert("  "@ =~= seq![' ', ' ']);
                assert(","@ =~= seq![',']);
                assert(rest@.subrange(0, 2) =~= seq![whole[m], whole[m + 1]]);
            }
        }
        proof {
            if pk {
                let (v, m, b) = packed_item(whole, src.opts).unwrap();
                if m < whole.len() {
                    let next = whole.subrange(m + 2, whole.len() as int);
                    assert(rest@.subrange(2, rest@.len() as int) =~= next);
                    assert(packed_run(next, src.opts, bare0) is Some);
                    assert(packed_item(next, src.opts) is Some);
                    lemma_packed_head(next, src.opts);
                    reveal_strlit(", ");
                    reveal_strlit("  ");
                    assert(", "@ =~= seq![',', ' ']);
                    reveal_strlit(",");
                    assert(","@ =~= seq![',']);
                    assert(rest@.len() > 2);
                    assert("  "@ =~= seq![' ', ' ']);
                    assert(rest@.subrange(0, 2) =~= seq![whole[m], ' ']);
                    assert(!crate::text::all_spaces(rest@)) by {
                        let w = choose|i: int| 0 <= i < next.len() && next[i] != ' ';
                        assert(rest@[w + 2] == next[w]);
                    }
                    assert(before.push(v) + run.unwrap().drop_first() =~= before + run.unwrap());
                } else {
                    assert(before.push(v) =~= before + run.unwrap());
                }
            }
        }
        if rest.len() == 0 {
            c.line += 1;
            return Ok(());
        }
        let here = plus(col0, content.len() - rest.len());
        match trailing_spaces_end_the_line(src, c, rest.as_slice(), here) {
            Err(e) => { return Err(e); },
            Ok(true) => {
                c.line += 1;
                return Ok(());
            },
            Ok(false) => {},
        }
        if eq_str(rest.as_slice(), ",") {
            c.line += 1;
            return Ok(());
        }
        if starts_with_str(rest.as_slice(), ", ") || starts_with_str(rest.as_slice(), "  ") {
            proof { reveal_strlit(", "); reveal_strlit("  "); }
            let is_comma = rest[0] == ',';
            let separator_at = here;
            rest = from(rest.as_slice(), 2);
            if is_comma {
                comma_packed = true;
                if saw_bare && saw_non_bare {
                    return Err(mixed_pack_error(src, c, col, &bare_scalar));
                }
                if bare_holds_comma {
                    return Err(bare_comma_error(src, c, col));
                }
            } else {
                space_packed = true;
                if saw_non_bare {
                    return Err(error_at_col(src, c, col, lit("a space separated packed array requires every element to be a bare string; consider unpacking this line onto multiple lines")));
                }
            }
            let after = plus(col0, content.len() - rest.len());
            match trailing_spaces_end_the_line(src, c, rest.as_slice(), after) {
                Err(e) => { return Err(e); },
                Ok(true) => { rest = Vec::new(); },
                Ok(false) => {},
            }
            if rest.len() == 0 {
                return Err(error_at_col(src, c, separator_at, lit("array lines cannot end with a separator")));
            }
            continue;
        }
        return Err(error_at_col(src, c, here, lit("array elements on the same line are separated by ', ' or by two spaces in all-bare-string arrays")));
    }
}


/// The object a `{ ` line opens whose text at `line_indent` is `content`:
/// the entries packed after the marker, then those of the block at the next
/// indent below (read with no indent offset frame open), and the line after
/// the last.
spec fn opened(src: &Src, c: &Cur, content: Seq<char>, line_indent: int)
    -> Option<(Seq<(Seq<char>, crate::value::Json)>, int)>
{
    if content.len() > 2 && content[0] == '{' && content[1] == ' ' && c.depth < MAX_DEPTH
        && line_indent + 2 <= usize::MAX && no_fold_after(src, c.line as int)
    {
        match packed_entries(content.subrange(2, content.len() as int), src.opts) {
            Some(first) => match blk(src, c, c.line + 1, line_indent + 2, MAX_DEPTH - c.depth - 1) {
                Some((more, next)) => Some((first + more, next)),
                None => None,
            },
            None => None,
        }
    } else {
        None
    }
}

/// The array a `[ { ` line opens whose text at `line_indent` is `content`:
/// the object whose entries follow the markers and go on in the block two
/// levels below, then the elements of the block one level below, read with
/// no indent offset frame open; and the line after it.
spec fn chained(src: &Src, c: &Cur, content: Seq<char>, line_indent: int) -> Option<(crate::value::Json, int)> {
    if content.len() > 4 && content[0] == '[' && content[1] == ' ' && content[2] == '{' && content[3] == ' '
        && c.depth + 2 <= MAX_DEPTH && line_indent + 4 <= usize::MAX && no_fold_after(src, c.line as int)
    {
        match packed_entries(content.subrange(4, content.len() as int), src.opts) {
            Some(first) => match blk(src, c, c.line + 1, line_indent + 4, MAX_DEPTH - c.depth - 1) {
                Some((more, next)) => match ablk(src, c, next, line_indent + 2, MAX_DEPTH - c.depth - 1) {
                    Some((rest, after)) => Some((
                        crate::value::Json::Array(seq![crate::value::Json::Object(first + more)] + rest), after)),
                    None => None,
                },
                None => None,
            },
            None => None,
        }
    } else {
        None
    }
}

/// A line opening with nesting markers: `[ ` for each array level, and
/// optionally `{ ` for the deepest, which may be an object.
fn parse_marker_chain_line(src: &Src, c: &mut Cur, content: &[char], line_indent: usize) -> (r: Result<DocNode, ParseError>)
    requires
        ok(src, old(c)),
        old(c).line < src.lines@.len(),
    ensures
        err_located(src, r),
        moved(src, old(c), final(c)),
        r is Ok ==> final(c).line > old(c).line,
        opened(src, old(c), content@, line_indent as int) is Some
            ==> (r matches Ok(n) && n.data() == crate::value::Json::Object(opened(src, old(c), content@, line_indent as int).unwrap().0)
                && final(c).line == opened(src, old(c), content@, line_indent as int).unwrap().1
                && final(c).frames@.len() == 0),
        chained(src, old(c), content@, line_indent as int) is Some
            ==> (r matches Ok(n) && n.data() == chained(src, old(c), content@, line_indent as int).unwrap().0
                && final(c).line == chained(src, old(c), content@, line_indent as int).unwrap().1
                && final(c).frames@.len() == 0),
        content@.len() >= 4 && content@[0] == '[' && content@[1] == ' ' && content@[2] == ' ' && content@[3] == ' '
            && src.opts.missing_indent_marker_spec() != MissingIndentMarker::Infer ==> r is Err,
    decreases MAX_DEPTH - old(c).depth, src.lines@.len() - old(c).line, 14int,
{
    let ghost spaced = content@.len() >= 4 && content@[0] == '[' && content@[1] == ' ' && content@[2] == ' '
        && content@[3] == ' ' && src.opts.missing_indent_marker_spec() != MissingIndentMarker::Infer;
    let ghost oc = opened(src, old(c), content@, line_indent as int) is Some;
    let ghost oc2 = chained(src, old(c), content@, line_indent as int) is Some;
    let ghost skip: int = if oc2 { 4 } else { 2 };
    let ghost first = packed_entries(content@.subrange(skip, content@.len() as int), src.opts).unwrap();
    let ghost tail = blk(src, old(c), old(c).line + 1, line_indent + skip, MAX_DEPTH - old(c).depth - 1).unwrap();
    let ghost arr = ablk(src, old(c), tail.1, line_indent + 2, MAX_DEPTH - old(c).depth - 1).unwrap();
    proof {
        reveal_strlit("[ ");
        reveal_strlit("{ ");
        reveal_strlit("  ");
        reveal_strlit(" /<");
        assert("[ "@ =~= seq!['[', ' ']);
        assert("{ "@ =~= seq!['{', ' ']);
        assert("  "@ =~= seq![' ', ' ']);
        if oc {
            assert(content@.subrange(0, 2) =~= seq!['{', ' ']);
            let e = content@.subrange(2, content@.len() as int);
            assert(e[0] == content@[2]);
            assert(e[0] != ' ');
        }
        if oc2 {
            assert(content@.subrange(0, 2) =~= seq!['[', ' ']);
            assert(content@.subrange(2, content@.len() as int).subrange(0, 2) =~= seq!['{', ' ']);
            let e = content@.subrange(4, content@.len() as int);
            assert(e[0] == content@[4]);
            assert(e[0] != ' ');
        }
    }
    let pending = take_pending(c);
    let line = src.lines[c.line].as_slice();
    let f = to_file(c, line_indent);
    let base_col = if f <= line.len() { f } else { 0 };
    let mut rest = slice_of(content, 0, content.len());
    let mut objects: Vec<bool> = Vec::new();
    let mut last_inferred = false;
    loop
        invariant_except_break
            oc ==> rest@ == content@ && objects@.len() == 0,
            oc2 ==> (rest@ == content@ && objects@.len() == 0)
                || (rest@ == content@.subrange(2, content@.len() as int) && objects@ == seq![false]),
            spaced ==> (rest@ == content@ && objects@.len() == 0)
                || (rest@ == content@.subrange(2, content@.len() as int) && objects@ == seq![false]),
        invariant
            spaced == (content@.len() >= 4 && content@[0] == '[' && content@[1] == ' ' && content@[2] == ' '
                && content@[3] == ' ' && src.opts.missing_indent_marker_spec() != MissingIndentMarker::Infer),
            ok(src, c),
            c.line == old(c).line,
            c.depth == old(c).depth,
            rest@.len() <= content@.len(),
            oc == (opened(src, old(c), content@, line_indent as int) is Some),
            c.frames == old(c).frames,
            "[ "@ == seq!['[', ' '],
            "{ "@ == seq!['{', ' '],
            "  "@ == seq![' ', ' '],
            oc ==> content@.len() > 2 && content@[0] == '{' && content@[1] == ' ' && content@[2] != ' '
                && content@.subrange(0, 2) == seq!['{', ' '],
            oc2 == (chained(src, old(c), content@, line_indent as int) is Some),
            oc2 ==> content@.len() > 4 && content@[4] != ' '
                && content@.subrange(0, 2) == seq!['[', ' ']
                && content@.subrange(2, content@.len() as int).subrange(0, 2) == seq!['{', ' '],
        ensures
            oc ==> objects@ == seq![true] && rest@ == content@.subrange(2, content@.len() as int) && !last_inferred,
            oc2 ==> objects@ == seq![false, true] && rest@ == content@.subrange(4, content@.len() as int) && !last_inferred,
            !spaced,
        decreases rest@.len(),
    {
        proof {
            if spaced {
                if rest@ == content@ {
                    assert(rest@.subrange(0, 2) =~= seq!['[', ' ']);
                } else {
                    assert(rest@.subrange(0, 2) =~= seq![' ', ' ']);
                }
            }
        }
        if starts_with_str(rest.as_slice(), "[ ") {
            proof { reveal_strlit("[ "); }
            objects.push(false);
            last_inferred = false;
            rest = from(rest.as_slice(), 2);
            proof {
                if oc2 {
                    assert(objects@ =~= seq![false]);
                }
            }
            continue;
        }
        if starts_with_str(rest.as_slice(), "{ ") {
            proof { reveal_strlit("{ "); }
            let ghost was = rest@;
            objects.push(true);
            last_inferred = false;
            rest = from(rest.as_slice(), 2);
            proof {
                if oc {
                    assert(objects@ =~= seq![true]);
                }
                if oc2 {
                    assert(objects@ =~= seq![false, true]);
                    assert(rest@ =~= content@.subrange(4, content@.len() as int));
                }
            }
            break;
        }
        if starts_with_str(rest.as_slice(), "  ") {
            proof { reveal_strlit("  "); }
            if !matches!(src.opts.missing_indent_marker_policy(), MissingIndentMarker::Infer) {
                let col = base_col.saturating_add(content.len() - rest.len());
                return Err(missing_marker_error(src, c, col, objects.len()));
            }
            objects.push(false);
            last_inferred = true;
            rest = from(rest.as_slice(), 2);
            continue;
        }
        break;
    }
    let n = objects.len();
    if n == 0 {
        return Err(error_lit(src, c, "expected an explicit nesting marker"));
    }
    if n > MAX_DEPTH - c.depth {
        return Err(too_deep(src, c));
    }
    let mut last_is_object = objects[n - 1];
    if last_inferred {
        match looks_like_object_start(src, c, rest.as_slice(), deeper(line_indent, n)) {
            Ok(true) => { last_is_object = true; },
            Ok(false) => {},
            Err(e) => { return Err(e); },
        }
    }
    let mut k: usize = 0;
    while k < n - 1
        invariant
            ok(src, c),
            c.line == old(c).line,
            c.depth == old(c).depth,
            n == objects@.len(),
            n >= 1,
            oc == (opened(src, old(c), content@, line_indent as int) is Some),
            oc ==> n == 1,
            oc2 == (chained(src, old(c), content@, line_indent as int) is Some),
            oc2 ==> n == 2 && objects@ == seq![false, true],
        decreases n - k,
    {
        if objects[k] {
            return Err(error_lit(src, c, "only the final explicit nesting marker on a line may be '{'"));
        }
        k += 1;
    }
    let deepest_parent = deeper(line_indent, n - 1);
    let start_line = c.line;
    let mut value: DocNode;
    if eq_str(rest.as_slice(), " /<") {
        let glyph = to_file(c, deeper(deepest_parent, 1));
        push_glyph(c, glyph);
        c.line += 1;
        if last_is_object {
            let mut entries: Vec<DocEntry> = Vec::new();
            match parse_object_tail(src, c, deeper(deepest_parent, 1), &mut entries) {
                Err(e) => { return Err(e); },
                Ok(()) => {},
            }
            if entries.len() == 0 {
                return Err(error_lit(src, c, "expected at least one object entry after indent glyph"));
            }
            value = DocNode::object(entries);
        } else {
            let mut elements: Vec<DocNode> = Vec::new();
            match parse_array_tail(src, c, deepest_parent, &mut elements) {
                Err(e) => { return Err(e); },
                Ok(()) => {},
            }
            if elements.len() == 0 {
                return Err(error_lit(src, c, "expected at least one array element after indent glyph"));
            }
            value = array_node(elements, false);
        }
    } else {
        if rest.len() == 0 {
            return Err(error_lit(src, c, "a nesting marker must be followed by content"));
        }
        let sc = count_leading_spaces(rest.as_slice());
        let rest_col = base_col.saturating_add(content.len() - rest.len());
        if !last_is_object && sc < rest.len() && rest[sc] == '|' {
            if sc != 0 {
                let here = c.line;
                return Err(error_at_line(src, here, rest_col, lit("a table header is one space right of the level it belongs to. A single space before a value opens a bare string, and a bare string cannot begin with a pipe, so nothing here explains the space -- delete it to put the header at its level, or add one more to put the table a level deeper")));
            }
            value = match parse_table_array(src, c, deeper(deepest_parent, 1)) {
                Ok(v) => v,
                Err(e) => { return Err(e); },
            };
        } else if last_is_object {
            let pair = deeper(line_indent, n);
            let ghost at = c.line;
            let mut entries = match parse_object_line_content(src, c, rest.as_slice(), pair, Some(rest_col), Vec::new()) {
                Ok(v) => v,
                Err(e) => { return Err(e); },
            };
            proof {
                if oc || oc2 {
                    assert(at == old(c).line);
                    assert(blk(src, c, c.line as int, pair as int, MAX_DEPTH - c.depth - 1)
                        == blk(src, old(c), old(c).line + 1, line_indent + skip, MAX_DEPTH - old(c).depth - 1));
                }
            }
            let ghost before = entries@;
            match parse_object_tail(src, c, pair, &mut entries) {
                Err(e) => { return Err(e); },
                Ok(()) => {},
            }
            value = DocNode::object(entries);
            proof {
                if oc || oc2 {
                    assert(value.data() == crate::value::Json::Object(first + tail.0));
                }
            }
        } else {
            let mut elements: Vec<DocNode> = Vec::new();
            if is_minimal_json_candidate(rest.as_slice()) {
                let v = match parse_minimal_json_line(src, c, rest.as_slice(), rest_col) {
                    Ok(v) => v,
                    Err(e) => { return Err(e); },
                };
                elements.push(v);
                c.line += 1;
            } else {
                match parse_array_line_content(src, c, rest.as_slice(), deeper(deepest_parent, 1), &mut elements, Some(rest_col), Vec::new()) {
                    Err(e) => { return Err(e); },
                    Ok(()) => {},
                }
            }
            match parse_array_tail(src, c, deepest_parent, &mut elements) {
                Err(e) => { return Err(e); },
                Ok(()) => {},
            }
            value = array_node(elements, false);
        }
    }
    assert(c.line > start_line);
    let mut level = n - 1;
    while level > 0
        invariant
            ok(src, c),
            old(c).line < c.line,
            c.depth == old(c).depth,
            oc == (opened(src, old(c), content@, line_indent as int) is Some),
            oc ==> level == 0 && value.data() == crate::value::Json::Object(first + tail.0)
                && c.line == tail.1 && c.frames@.len() == 0,
            oc2 == (chained(src, old(c), content@, line_indent as int) is Some),
            oc2 ==> chained(src, old(c), content@, line_indent as int).unwrap()
                    == (crate::value::Json::Array(seq![crate::value::Json::Object(first + tail.0)] + arr.0), arr.1)
                && ablk(src, old(c), tail.1, line_indent + 2, MAX_DEPTH - old(c).depth - 1) == Some(arr)
                && old(c).depth + 2 <= MAX_DEPTH && line_indent + 4 <= usize::MAX,
            oc2 ==> (level == 1 && value.data() == crate::value::Json::Object(first + tail.0)
                    && c.line == tail.1 && c.frames@.len() == 0)
                || (level == 0 && value.data() == chained(src, old(c), content@, line_indent as int).unwrap().0
                    && c.line == chained(src, old(c), content@, line_indent as int).unwrap().1 && c.frames@.len() == 0),
        decreases level,
    {
        level -= 1;
        let parent = deeper(line_indent, level);
        let mut wrapped: Vec<DocNode> = Vec::new();
        let ghost v0 = value.data();
        proof { DocNode::lemma_datas_push(wrapped@, value); DocNode::lemma_datas_empty(); }
        wrapped.push(value);
        proof {
            if oc2 {
                assert(Seq::<crate::value::Json>::empty().push(v0) =~= seq![v0]);
                assert(ablk(src, c, c.line as int, parent + 2, MAX_DEPTH - c.depth - 1) == ablk(src, old(c), tail.1, line_indent + 2, MAX_DEPTH - old(c).depth - 1));
                assert(seq![v0] + arr.0 =~= seq![crate::value::Json::Object(first + tail.0)] + arr.0);
            }
        }
        match parse_array_tail(src, c, parent, &mut wrapped) {
            Err(e) => { return Err(e); },
            Ok(()) => {},
        }
        value = array_node(wrapped, false);
    }
    if pending.len() > 0 {
        attach_node_comments(&mut value, pending, line_indent);
    }
    Ok(value)
}

/// A packed array opened on a key's line (by two spaces or by `[ `),
/// continued on the lines below at one level deeper.
fn parse_inline_array(src: &Src, c: &mut Cur, content: &[char], parent_indent: usize, col0: Option<usize>) -> (r: Result<DocNode, ParseError>)
    requires
        ok(src, old(c)),
        old(c).line < src.lines@.len(),
    ensures
        err_located(src, r),
        moved(src, old(c), final(c)),
        r is Ok ==> final(c).line > old(c).line,
        no_fold_after(src, old(c).line as int) && packed_items(content@, src.opts) is Some
            && old(c).depth < MAX_DEPTH && parent_indent + 2 <= usize::MAX
            && ablk(src, old(c), old(c).line + 1, parent_indent + 2, MAX_DEPTH - old(c).depth - 1) is Some
            ==> (r matches Ok(n) && n.data() == crate::value::Json::Array(packed_items(content@, src.opts).unwrap()
                    + ablk(src, old(c), old(c).line + 1, parent_indent + 2, MAX_DEPTH - old(c).depth - 1).unwrap().0)
                && final(c).line == ablk(src, old(c), old(c).line + 1, parent_indent + 2, MAX_DEPTH - old(c).depth - 1).unwrap().1
                && final(c).frames@.len() == 0),
        no_fold_after(src, old(c).line as int) && mixed_packing(content@, src.opts) ==> r is Err,
        r matches Ok(n) ==> n.table_spec() == Some(false),
    decreases MAX_DEPTH - old(c).depth, src.lines@.len() - old(c).line, 8int,
{
    let mut values: Vec<DocNode> = Vec::new();
    proof { DocNode::lemma_datas_empty(); }
    match parse_array_line_content(src, c, content, deeper(parent_indent, 1), &mut values, col0, Vec::new()) {
        Err(e) => { return Err(e); },
        Ok(()) => {},
    }
    proof {
        assert(Seq::<crate::value::Json>::empty() + packed_items(content@, src.opts).unwrap()
            =~= packed_items(content@, src.opts).unwrap());
    }
    match parse_array_tail(src, c, parent_indent, &mut values) {
        Err(e) => { return Err(e); },
        Ok(()) => {},
    }
    Ok(array_node(values, false))
}

/// The object at `indent` that the lines from `line` on hold, read with no
/// indent offset frame open, `room` levels left to nest, and every container
/// allowed to go without a marker.
spec fn blk(src: &Src, c: &Cur, line: int, indent: int, room: int) -> Option<(Seq<(Seq<char>, crate::value::Json)>, int)> {
    if c.frames@.len() == 0 && indent % 2 == 0 && 0 <= room && lines_fit(src)
        && src.opts.missing_indent_marker_spec() != MissingIndentMarker::RequireForced
    {
        obj_block(src_text(src), src.opts, line, indent, room as nat)
    } else {
        None
    }
}

/// Every line's length fits a `usize`.
spec fn lines_fit(src: &Src) -> bool {
    forall|k: int| 0 <= k < src.lines@.len() ==> #[trigger] src.lines@[k]@.len() <= usize::MAX
}

/// The lines being read, as text.
spec fn src_text(src: &Src) -> Seq<Seq<char>> {
    src.lines@.map_values(|l: Vec<char>| l@)
}

/// The object `object_tail` reads from where the reading is.
spec fn tail_block(src: &Src, c: &Cur, indent: int) -> Option<(Seq<(Seq<char>, crate::value::Json)>, int)> {
    blk(src, c, c.line as int, indent, MAX_DEPTH - c.depth)
}

/// The object one level below `pair_indent` that starts at `line`, when it
/// holds at least one entry: its entries and the line after it.
spec fn nested_below(src: &Src, c: &Cur, line: int, pair_indent: int) -> Option<(Seq<(Seq<char>, crate::value::Json)>, int)> {
    if c.depth < MAX_DEPTH && 0 <= line < src.lines@.len() && item_line(src_text(src)[line], src.opts, pair_indent + 2) {
        match blk(src, c, line, pair_indent + 2, MAX_DEPTH - c.depth - 1) {
            Some((inner, next)) => if inner.len() > 0 && line <= next <= src.lines@.len() { Some((inner, next)) } else { None },
            None => None,
        }
    } else {
        None
    }
}

/// The array at `indent` that the lines from `line` on hold, read as `blk`
/// reads an object.
spec fn ablk(src: &Src, c: &Cur, line: int, indent: int, room: int) -> Option<(Seq<crate::value::Json>, int)> {
    if c.frames@.len() == 0 && indent % 2 == 0 && lines_fit(src) && 0 <= room
        && src.opts.missing_indent_marker_spec() != MissingIndentMarker::RequireForced
    {
        arr_block(src_text(src), src.opts, line, indent, room as nat)
    } else {
        None
    }
}

/// The array one level below `parent_indent` that starts at `line`, when its
/// first line is an element and it holds at least one.
spec fn arr_below(src: &Src, c: &Cur, line: int, parent_indent: int) -> Option<(Seq<crate::value::Json>, int)> {
    if c.depth < MAX_DEPTH && 0 <= line < src.lines@.len()
        && element_line(src_text(src)[line], src.opts, parent_indent + 2) is Some
    {
        match ablk(src, c, line, parent_indent + 2, MAX_DEPTH - c.depth - 1) {
            Some((items, next)) => if items.len() > 0 && line <= next <= src.lines@.len() { Some((items, next)) } else { None },
            None => None,
        }
    } else {
        None
    }
}

/// The value one level below `pair_indent` that starts at `line`: the object
/// whose first entry is there, or the array whose first element is.
spec fn value_below(src: &Src, c: &Cur, line: int, pair_indent: int) -> Option<(crate::value::Json, int)> {
    if c.depth < MAX_DEPTH && c.frames@.len() == 0 && pair_indent % 2 == 0 && lines_fit(src)
        && src.opts.missing_indent_marker_spec() != MissingIndentMarker::RequireForced
    {
        below_value(src_text(src), src.opts, line, pair_indent + 2, (MAX_DEPTH - c.depth - 1) as nat)
    } else {
        None
    }
}

/// The line after `l`, if any, neither continues a fold nor is a comment.
spec fn no_fold_after(src: &Src, l: int) -> bool {
    let p = past_comments(src, l + 1);
    p < 0 || p >= src.lines@.len() || {
        let n = src.lines@[p]@;
        !crate::text::is_prefix(seq!['/', ' '], n.subrange(crate::text::leading_spaces(n) as int, n.len() as int))
    }
}

/// `unfolded` over the lines being read says what `no_fold_after` says.
proof fn lemma_unfolded_src(src: &Src, l: int)
    ensures
        unfolded(src_text(src), l + 1) == no_fold_after(src, l),
{
    lemma_skip_comment_lines_src(src, l + 1);
    let p = past_comments(src, l + 1);
    if 0 <= p < src.lines@.len() {
        assert(src_text(src)[p] == src.lines@[p]@);
    }
}

proof fn lemma_skip_comment_lines_src(src: &Src, k: int)
    ensures
        skip_comment_lines(src_text(src), k) == past_comments(src, k),
    decreases src.lines@.len() - k,
{
    if 0 <= k < src.lines@.len() {
        assert(src_text(src)[k] == src.lines@[k]@);
        if comment_line(src.lines@[k]@) {
            lemma_skip_comment_lines_src(src, k + 1);
        }
    }
}

/// Reading the `/ ` continuations at `fold_indent` from line `k` on: the
/// text they add, the line after the last, and how many there were. Comments
/// among them are passed over; `None` where the reading refuses first (a
/// comment it does not let sit in a fold, or a `/ ` at another column).
spec fn fold_scan(src: &Src, c: &Cur, k: int, fold_indent: int) -> Option<(Seq<char>, int, nat)>
    decreases src.lines@.len() - k,
{
    if k < 0 || k >= src.lines@.len() {
        Some((Seq::empty(), k, 0))
    } else {
        match next_kind(src, c, k, fold_indent) {
            FoldKind::Continues(t) => match fold_scan(src, c, k + 1, fold_indent) {
                Some((m, e, n)) => Some((t + m, e, n + 1)),
                None => None,
            },
            FoldKind::Comment => if src.opts.comment_placement_error_spec() == CommentPlacementError::Reject {
                None
            } else {
                fold_scan(src, c, k + 1, fold_indent)
            },
            FoldKind::Ends => Some((Seq::empty(), k, 0)),
            FoldKind::Elsewhere => None,
        }
    }
}

/// Follow a value's `/ ` continuations from the line after the current one.
/// Gives what they add and the line after the last, when there was one.
fn collect_folds(src: &Src, c: &mut Cur, line_indent: usize) -> (r: Result<Option<(Vec<char>, usize)>, ParseError>)
    requires
        ok(src, old(c)),
        old(c).line < src.lines@.len(),
    ensures
        err_located(src, r),
        final(c).line == old(c).line,
        final(c).depth == old(c).depth,
        final(c).frames == old(c).frames,
        src.opts.comment_placement_error_spec() != CommentPlacementError::Hoist ==> *final(c) == *old(c),
        r matches Ok(Some((_, next))) ==> old(c).line < next <= src.lines@.len(),
        no_fold_after(src, old(c).line as int) ==> (r matches Ok(None) && *final(c) == *old(c)),
        match fold_scan(src, old(c), old(c).line + 1, line_indent as int) {
            Some((t, e, n)) => if n > 0 {
                r matches Ok(Some((acc, next))) && acc@ == t && next == e
            } else {
                r matches Ok(None)
            },
            None => r is Err,
        },
{
    let mut acc: Vec<char> = Vec::new();
    let n_lines = src.lines.len();
    let mut next = c.line + 1;
    let mut count: usize = 0;
    while next < src.lines.len()
        invariant
            c.line == old(c).line,
            c.depth == old(c).depth,
            c.frames == old(c).frames,
            src.opts.comment_placement_error_spec() != CommentPlacementError::Hoist ==> *c == *old(c),
            old(c).line < next <= src.lines@.len(),
            count <= next - old(c).line - 1,
            no_fold_after(src, old(c).line as int) ==> next == old(c).line + 1 && count == 0 && *c == *old(c),
            match fold_scan(src, old(c), next as int, line_indent as int) {
                Some((m, e, n)) => fold_scan(src, old(c), old(c).line + 1, line_indent as int)
                    == Some((acc@ + m, e, (count + n) as nat)),
                None => fold_scan(src, old(c), old(c).line + 1, line_indent as int) is None,
            },
        ensures
            fold_scan(src, old(c), next as int, line_indent as int) == Some((Seq::<char>::empty(), next as int, 0nat)),
        decreases src.lines@.len() - next,
    {
        proof {
            assert(next_kind(src, c, next as int, line_indent as int) == next_kind(src, old(c), next as int, line_indent as int));
        }
        match classify_fold_next(src, c, next, line_indent) {
            FoldNext::Continues(rest) => {
                let ghost before = acc@;
                crate::text::extend(&mut acc, rest.as_slice());
                proof {
                    match fold_scan(src, old(c), next + 1, line_indent as int) {
                        Some((m, e, n)) => {
                            assert(before + (rest@ + m) =~= (before + rest@) + m);
                        },
                        None => {},
                    }
                }
                next += 1;
                count = count.saturating_add(1);
            },
            FoldNext::Comment => {
                match comment_in_fold(src, c, next, "this comment sits in the middle of a value that continues below it -- move the comment above the whole value, or below it") {
                    Err(e) => { return Err(e); },
                    Ok(()) => {},
                }
                next += 1;
            },
            FoldNext::Ends => { break; },
            FoldNext::ContinuesElsewhere => {
                return Err(stray_fold_marker(src, c, next, line_indent));
            },
        }
    }
    proof {
        assert(acc@ + Seq::<char>::empty() =~= acc@);
    }
    if count > 0 { Ok(Some((acc, next))) } else { Ok(None) }
}

/// Read one value at the front of `content`. `Some(n)` says how much of the
/// line it took; `None` says it consumed lines of its own (a fold, a
/// multiline body, a packed array) and the reading is past them.
/// What the pieces of `parse_inline_value` promise of a value that is a lone
/// scalar: alone on its line, it fills the line; after a key, it is the value
/// text up to the first run of two spaces; on an array line, it is the element
/// `packed_item` reads.
spec fn inline_read(src: &Src, c0: Cur, c1: Cur, content: Seq<char>, ctx: Context,
    r: Result<(DocNode, Option<usize>), ParseError>) -> bool
{
    &&& (ctx is SingleValue && no_fold_after(src, c0.line as int) && !crate::lex::minimal_json_candidate(content)
            && lone_scalar(content, src.opts) is Some
        ==> (r matches Ok((n, Some(e))) && e == content.len() && lone_scalar(content, src.opts) == Some(n.data())
            && c1 == c0))
    &&& (ctx is ObjectValue && no_fold_after(src, c0.line as int) && lead_value(content, src.opts) is Some
        ==> (r matches Ok((n, Some(e))) && e == lead_value(content, src.opts).unwrap().1
            && lead_value(content, src.opts).unwrap().0 == n.data() && c1 == c0))
    &&& (ctx is ArrayLine && no_fold_after(src, c0.line as int) && !crate::lex::minimal_json_candidate(content)
            && lone_scalar(content, src.opts) is Some
        ==> (r matches Ok((n, Some(e))) && e == content.len() && lone_scalar(content, src.opts) == Some(n.data())
            && c1 == c0))
    &&& (ctx is ArrayLine && no_fold_after(src, c0.line as int) && packed_item(content, src.opts) is Some
        ==> (r matches Ok((n, Some(e))) && e == packed_item(content, src.opts).unwrap().1
            && packed_item(content, src.opts).unwrap().0 == n.data() && c1 == c0))
}

/// Where a bare string at the front of `content` ends on its line.
spec fn bare_end(content: Seq<char>, ctx: Context) -> int {
    if ctx is SingleValue { content.len() as int } else { crate::lex::bare_run_end(content) as int }
}

/// A bare string that runs to the end of its line and is continued by `/ `
/// lines below: what it reads as, the text after its opener joined with each
/// continuation's, and the line after the last continuation.
spec fn folded_bare(src: &Src, c: &Cur, content: Seq<char>, line_indent: int, ctx: Context) -> Option<(Seq<char>, int)> {
    let end = bare_end(content, ctx);
    if 0 < end <= content.len() && crate::text::all_spaces(content.subrange(end, content.len() as int)) {
        match fold_scan(src, c, c.line + 1, line_indent) {
            Some((t, e, n)) => if n > 0 && crate::lex::bare_string_ok(content.subrange(1, content.len() as int) + t, src.opts) {
                Some((content.subrange(1, content.len() as int) + t, e))
            } else {
                None
            },
            None => None,
        }
    } else {
        None
    }
}

/// A bare string at the front of `content`, behind its opener.
fn inline_bare(src: &Src, c: &mut Cur, content: &[char], line_indent: usize, ctx: Context, col: Option<usize>)
    -> (r: Result<(DocNode, Option<usize>), ParseError>)
    requires
        ok(src, old(c)),
        old(c).line < src.lines@.len(),
        content@.len() > 0,
        content@[0] == ' ' || content@[0] == '_',
        !(ctx is ObjectValue && content@.len() >= 2 && content@[0] == ' ' && content@[1] == ' '),
        !(content@.len() >= 2 && content@[0] == ' ' && content@[1] == '`'),
    ensures
        err_located(src, r),
        moved(src, old(c), final(c)),
        r matches Ok((_, Some(n))) ==> 0 < n <= content@.len() && final(c).line == old(c).line,
        r matches Ok((_, None)) ==> final(c).line > old(c).line,
        inline_read(src, *old(c), *final(c), content@, ctx, r),
        folded_bare(src, old(c), content@, line_indent as int, ctx) matches Some((v, e))
            ==> (r matches Ok((n, None)) && n.data() == crate::value::Json::Str(v) && final(c).line == e),
        r matches Ok((n, _)) ==> n.string_form_spec() == Some(StringForm::Bare(
            if content@[0] == '_' { BareForm::Marked } else { BareForm::Plain })),
{
    let ghost lead = ctx is ObjectValue && lead_value(content@, src.opts) is Some;
    let ghost cut = crate::lex::first_pair(content@, ' ', ' ');
    proof {
        if lead {
            lemma_lead_value(content@, src.opts);
            assert(content@.subrange(0, cut)[0] == content@[0]);
            if cut >= 2 {
                assert(content@.subrange(0, cut)[1] == content@[1]);
                assert(content@.subrange(0, cut).subrange(1, cut) =~= content@.subrange(1, cut));
            }
        }
    }
    let first = content[0];
    let form = if first == '_' { BareForm::Marked } else { BareForm::Plain };
    proof {
        let s = content@.subrange(1, content@.len() as int);
        if crate::lex::bare_string_ok(s, src.opts) {
            crate::lex::lemma_bare_run_whole(first, s, src.opts);
            assert(content@ =~= seq![first] + s);
            assert(s[0] == content@[1]);
        }
    }
        let end = match ctx {
            Context::SingleValue => content.len(),
            _ => bare_string_run(content),
        };
        if end == 0 {
            if starts_with_str(content, "  ") {
                return Err(error_at_col(src, c, col, lit("too many spaces before this value. One space starts an ordinary value (`k: x` is the string x), two open a packed array (`k:  1, 2`), and a third opens a bare string inside that array (`k:   x` is an array holding the string x). Nothing is left for a fourth to open -- delete the extra spaces, or put the value on its own line below the key.")));
            }
            return Err(error_at_col(src, c, col, lit("bare strings cannot start with a forbidden character")));
        }
        let value = slice_of(content, 1, end);
        let tail = from(content, end);
        let mut folded: Option<(Vec<char>, usize)> = None;
        if crate::text::is_all_spaces(tail.as_slice()) {
            match collect_folds(src, c, line_indent) {
                Err(e) => { return Err(e); },
                Ok(Some((more, next))) => {
                    let mut acc = from(content, 1);
                    crate::text::extend(&mut acc, more.as_slice());
                    folded = Some((acc, next));
                },
                Ok(None) => {},
            }
        }
        let check = match &folded {
            Some((acc, _)) => check_bare_string(acc.as_slice(), &src.opts),
            None => check_bare_string(value.as_slice(), &src.opts),
        };
        match check {
            Err(fault) => {
                let space_line = match ctx {
                    Context::ArrayLine(Packing::Space) => true,
                    _ => false,
                };
                if space_line && matches!(fault, BareFault::LeadingDoubleQuote) {
                    return Err(error_at_col(src, c, col, lit("a space separated packed array holds bare strings only, so a double quoted element has no spelling on this line -- give the array one element per line, or write this element bare")));
                }
                return Err(error_at_col(src, c, col, describe_bare_fault(fault)));
            },
            Ok(()) => {},
        }
        match folded {
            Some((acc, next)) => {
                c.line = next;
                return Ok((string_node(to_string(acc.as_slice()), StringForm::Bare(form)), None));
            },
            None => {},
        }
        return Ok((string_node(to_string(value.as_slice()), StringForm::Bare(form)), Some(end)));
}

/// A JSON string at the front of `content`, possibly folded.
fn inline_quoted(src: &Src, c: &mut Cur, content: &[char], line_indent: usize, ctx: Context, col: Option<usize>)
    -> (r: Result<(DocNode, Option<usize>), ParseError>)
    requires
        ok(src, old(c)),
        old(c).line < src.lines@.len(),
        content@.len() > 0,
        content@[0] == '"',
    ensures
        err_located(src, r),
        moved(src, old(c), final(c)),
        r matches Ok((_, Some(n))) ==> 0 < n <= content@.len() && final(c).line == old(c).line,
        r matches Ok((_, None)) ==> final(c).line > old(c).line,
        inline_read(src, *old(c), *final(c), content@, ctx, r),
{
    let ghost lead = ctx is ObjectValue && lead_value(content@, src.opts) is Some;
    let ghost cut = crate::lex::first_pair(content@, ' ', ' ');
    proof {
        if lead {
            lemma_lead_value(content@, src.opts);
            assert(content@.subrange(0, cut)[0] == content@[0]);
            if cut >= 2 {
                assert(content@.subrange(0, cut)[1] == content@[1]);
                assert(content@.subrange(0, cut).subrange(1, cut) =~= content@.subrange(1, cut));
            }
        }
    }
    match parse_json_string_prefix(content) {
        Some((v, end)) => {
            proof { crate::lex::lemma_closing_quote_bound(content@, 1); }
            return Ok((string_node(v, StringForm::Quoted), Some(end)));
        },
        None => {},
    }
    let v = match parse_folded_json_string(src, c, content, line_indent) {
        Ok(v) => v,
        Err(e) => { return Err(e); },
    };
    return Ok((string_node(v, StringForm::Quoted), None));
}

/// An empty container or MINIMAL JSON at the front of `content`.
fn inline_bracketed(src: &Src, c: &mut Cur, content: &[char], line_indent: usize, ctx: Context, col: Option<usize>)
    -> (r: Result<(DocNode, Option<usize>), ParseError>)
    requires
        ok(src, old(c)),
        old(c).line < src.lines@.len(),
        content@.len() > 0,
        content@[0] == '[' || content@[0] == '{',
        !(content@[0] == '[' && ctx is ObjectValue && content@.len() >= 2 && content@[1] == ' '),
    ensures
        err_located(src, r),
        moved(src, old(c), final(c)),
        r matches Ok((_, Some(n))) ==> 0 < n <= content@.len() && final(c).line == old(c).line,
        r matches Ok((_, None)) ==> final(c).line > old(c).line,
        inline_read(src, *old(c), *final(c), content@, ctx, r),
{
    let ghost lead = ctx is ObjectValue && lead_value(content@, src.opts) is Some;
    let ghost cut = crate::lex::first_pair(content@, ' ', ' ');
    proof {
        if lead {
            lemma_lead_value(content@, src.opts);
            assert(content@.subrange(0, cut)[0] == content@[0]);
            if cut >= 2 {
                assert(content@.subrange(0, cut)[1] == content@[1]);
                assert(content@.subrange(0, cut).subrange(1, cut) =~= content@.subrange(1, cut));
            }
        }
    }
    let first = content[0];
    if starts_with_str(content, "[]") {
        proof {
            reveal_strlit("[]");
            DocNode::lemma_datas_empty();
            assert("[]"@ =~= seq!['[', ']']);
            assert(content@.subrange(0, 2)[1] == content@[1]);
            assert(content@[1] == ']');
            assert(crate::lex::bracket_close(content@, 1, 1, false) == Some(2int));
            if content@.len() == 2 {
                assert(content@ =~= content@.subrange(0, 2));
            }
        }
        return Ok((array_node(Vec::new(), false), Some(2)));
    }
    if starts_with_str(content, "{}") {
        proof {
            reveal_strlit("{}");
            DocNode::lemma_datas_empty();
            assert("{}"@ =~= seq!['{', '}']);
            assert(content@.subrange(0, 2)[1] == content@[1]);
            assert(content@[1] == '}');
            assert(crate::lex::bracket_close(content@, 1, 1, false) == Some(2int));
            if content@.len() == 2 {
                assert(content@ =~= content@.subrange(0, 2));
            }
        }
        return Ok((DocNode::object(Vec::new()), Some(2)));
    }
    if is_minimal_json_candidate(content) {
        if matches!(ctx, Context::ArrayLine(_)) {
            return Err(error_lit(src, c, "MINIMAL JSON may not be packed with other values; it must be alone on its line, or follow a key"));
        }
        let end = match minimal_json_end(content) {
            Some(e) => e,
            None => {
                return Err(error_lit(src, c, "MINIMAL JSON must open and close on the same line; it cannot be wrapped or folded"));
            },
        };
        let fragment = slice_of(content, 0, end);
        proof {
            if end == content.len() {
                assert(fragment@ =~= content@);
            }
        }
        let at = match col { Some(k) => k, None => 0 };
        let v = match parse_minimal_json_line(src, c, fragment.as_slice(), at) {
            Ok(v) => v,
            Err(e) => { return Err(e); },
        };
        return Ok((v, Some(end)));
    }
    if first == '[' {
        return Err(error_lit(src, c, "nonempty arrays require container context"));
    }
    return Err(error_lit(src, c, "nonempty objects require object or array context"));
}

/// A literal or a number at the front of `content`, or the error that says
/// what it is not.
#[verifier::rlimit(80)]
/// How long the literal `true`, `false` or `null` at the front of `content` is.
pub open spec fn literal_len(content: Seq<char>) -> Option<int> {
    if crate::text::is_prefix(seq!['t', 'r', 'u', 'e'], content) {
        Some(4)
    } else if crate::text::is_prefix(seq!['f', 'a', 'l', 's', 'e'], content) {
        Some(5)
    } else if crate::text::is_prefix(seq!['n', 'u', 'l', 'l'], content) {
        Some(4)
    } else {
        None
    }
}

/// A literal at the front of `content` followed by what may not follow it:
/// anything but a space, or on an array line a comma.
pub open spec fn literal_refused(content: Seq<char>, ctx: Context) -> bool {
    literal_len(content) matches Some(n) && n < content.len() && content[n] != ' '
        && !(content[n] == ',' && ctx is ArrayLine)
}

/// What the literal at the front of `content` reads as.
pub open spec fn literal_json(content: Seq<char>) -> crate::value::Json {
    if content[0] == 't' {
        crate::value::Json::Bool(true)
    } else if content[0] == 'f' {
        crate::value::Json::Bool(false)
    } else {
        crate::value::Json::Null
    }
}

/// What reading a literal at the front of `content` gives: its refusal, or
/// the literal and how much of the line it took.
pub open spec fn literal_read(content: Seq<char>, ctx: Context, r: Result<(DocNode, Option<usize>), ParseError>) -> bool {
    literal_len(content) matches Some(n) ==> if literal_refused(content, ctx) {
        r is Err
    } else {
        r matches Ok((node, Some(k))) && k == n && node.data() == literal_json(content)
    }
}

/// How much of the line a scalar at the front of `v` takes, when it is a
/// literal or a number that stops short of the line's end.
pub open spec fn scalar_end(v: Seq<char>, ctx: Context) -> Option<int> {
    if literal_len(v) is Some && !literal_refused(v, ctx) {
        literal_len(v)
    } else {
        match number_token(v, ctx) {
            Some(t) => if crate::jsonlit::json_number(t) && 0 < t.len() < v.len() { Some(t.len() as int) } else { None },
            None => None,
        }
    }
}

/// The value text of an object line's first pair, past its key's colon.
pub open spec fn first_value(content: Seq<char>, o: ParseOptions) -> Option<Seq<char>> {
    match entry_key(content, o) {
        Some((k, p)) => Some(content.subrange(p, content.len() as int)),
        None => None,
    }
}

/// An object line whose first pair the reading refuses: a literal or a
/// number that is not one, or a scalar followed by spaces that carry
/// nothing (under the rejecting policy) or by a single space before more.
pub open spec fn first_pair_refused(lines: Seq<Seq<char>>, o: ParseOptions, line: int, content: Seq<char>) -> bool {
    first_value(content, o) matches Some(v) && {
        ||| literal_refused(v, Context::ObjectValue)
        ||| (number_token(v, Context::ObjectValue) matches Some(t)
                && !(crate::jsonlit::json_number(t) && t.len() > 0)
                && (t.len() < v.len() || unfolded(lines, line + 1)))
        ||| (v.len() >= 2 && v[0] == ' ' && v[1] == ' ' && unfolded(lines, line + 1)
                && mixed_packing(v.subrange(2, v.len() as int), o))
        ||| (scalar_end(v, Context::ObjectValue) matches Some(n) && n < v.len() && {
                let rest = v.subrange(n, v.len() as int);
                ||| (crate::text::all_spaces(rest) && o.trailing_spaces_spec() == TrailingSpaces::Reject)
                ||| (!crate::text::all_spaces(rest) && !crate::text::is_prefix(seq![' ', ' '], rest))
            })
    }
}

/// Line `line` starts with a key at `pair_indent`, with no marker before it.
pub open spec fn entry_line_at(lines: Seq<Seq<char>>, o: ParseOptions, line: int, pair_indent: int) -> bool {
    0 <= line < lines.len() && pair_indent % 2 == 0 && 0 <= pair_indent <= lines[line].len() && {
        let l = lines[line];
        let e = l.subrange(pair_indent, l.len() as int);
        &&& value_line(l)
        &&& crate::lex::leading_of(l) == Ok::<crate::lex::Leading, nat>(
                crate::lex::Leading { indent: pair_indent as usize, opener: Opener::Nothing })
        &&& e.len() > 0 && e[0] != '|' && !crate::lex::marker_chain_start(e)
        &&& entry_key(e, o) is Some
    }
}

/// Line `line` holds an object's entries at `pair_indent`, and the reading
/// refuses its first pair as `first_pair_refused` says.
pub open spec fn entry_line_refused(lines: Seq<Seq<char>>, o: ParseOptions, line: int, pair_indent: int) -> bool {
    entry_line_at(lines, o, line, pair_indent) && {
        let l = lines[line];
        first_pair_refused(lines, o, line, l.subrange(pair_indent, l.len() as int))
    }
}

/// The number token at the front of `content`: what starts with `-` or a
/// digit, up to where a token ends in `ctx`.
pub open spec fn number_token(content: Seq<char>, ctx: Context) -> Option<Seq<char>> {
    if content.len() > 0 && (content[0] == '-' || ('0' <= content[0] && content[0] <= '9')) {
        Some(content.subrange(0, crate::lex::token_end_spec(content, ctx)))
    } else {
        None
    }
}

/// What reading the number token `t` gives: the number, spelled as written,
/// or its refusal.
pub open spec fn number_read(t: Seq<char>, r: Result<(DocNode, Option<usize>), ParseError>) -> bool {
    if crate::jsonlit::json_number(t) && t.len() > 0 {
        r matches Ok((n, Some(k))) && k == t.len() && n.data() == crate::value::Json::Number(t)
    } else {
        r matches Err(e) && e.message_spec() == number_refusal(t)
    }
}

/// How a number token that is no JSON number is refused.
pub open spec fn number_refusal(t: Seq<char>) -> Seq<char> {
    "invalid JSON number: \""@ + t + "\""@
}

#[verifier::rlimit(60)]
#[verifier::spinoff_prover]
fn inline_token(src: &Src, c: &mut Cur, content: &[char], line_indent: usize, ctx: Context, col: Option<usize>)
    -> (r: Result<(DocNode, Option<usize>), ParseError>)
    requires
        ok(src, old(c)),
        old(c).line < src.lines@.len(),
        content@.len() > 0,
        content@[0] != ' ' && content@[0] != '_' && content@[0] != '"' && content@[0] != '[' && content@[0] != '{',
    ensures
        err_located(src, r),
        moved(src, old(c), final(c)),
        r matches Ok((_, Some(n))) ==> 0 < n <= content@.len() && final(c).line == old(c).line,
        r matches Ok((_, None)) ==> final(c).line > old(c).line,
        inline_read(src, *old(c), *final(c), content@, ctx, r),
        literal_read(content@, ctx, r),
        number_token(content@, ctx) is Some
            && (number_token(content@, ctx).unwrap().len() < content@.len() || no_fold_after(src, old(c).line as int))
            ==> number_read(number_token(content@, ctx).unwrap(), r),
{
    let ghost lead = ctx is ObjectValue && lead_value(content@, src.opts) is Some;
    let ghost cut = crate::lex::first_pair(content@, ' ', ' ');
    proof {
        if lead {
            lemma_lead_value(content@, src.opts);
            assert(content@.subrange(0, cut)[0] == content@[0]);
            if cut >= 2 {
                assert(content@.subrange(0, cut)[1] == content@[1]);
                assert(content@.subrange(0, cut).subrange(1, cut) =~= content@.subrange(1, cut));
            }
        }
    }
    let first = content[0];
    if starts_with_str(content, "true") {
        proof {
            reveal_strlit("true");
            assert("true"@ =~= seq!['t', 'r', 'u', 'e']);
            if content@.len() == "true"@.len() {
                assert(content@ =~= content@.subrange(0, "true"@.len() as int));
            }
        }
        match check_literal_boundary(src, c, content, "true", col, ctx) {
            Err(e) => { return Err(e); },
            Ok(()) => {},
        }
        return Ok((DocNode::bool(true), Some(4)));
    }
    if starts_with_str(content, "false") {
        proof {
            reveal_strlit("false");
            assert("false"@ =~= seq!['f', 'a', 'l', 's', 'e']);
            if content@.len() == "false"@.len() {
                assert(content@ =~= content@.subrange(0, "false"@.len() as int));
            }
        }
        match check_literal_boundary(src, c, content, "false", col, ctx) {
            Err(e) => { return Err(e); },
            Ok(()) => {},
        }
        return Ok((DocNode::bool(false), Some(5)));
    }
    if starts_with_str(content, "null") {
        proof {
            reveal_strlit("null");
            assert("null"@ =~= seq!['n', 'u', 'l', 'l']);
            if content@.len() == "null"@.len() {
                assert(content@ =~= content@.subrange(0, "null"@.len() as int));
            }
        }
        match check_literal_boundary(src, c, content, "null", col, ctx) {
            Err(e) => { return Err(e); },
            Ok(()) => {},
        }
        return Ok((DocNode::null(), Some(4)));
    }
    if first == '-' || ('0' <= first && first <= '9') {
        proof {
            if crate::jsonlit::json_number(content@) {
                crate::jsonlit::lemma_json_number_edges(content@);
                crate::jsonlit::lemma_json_number_spaceless(content@);
                crate::lex::lemma_first_pair_absent(content@, ' ', ' ');
                crate::lex::lemma_first_pair_absent(content@, ',', ' ');
            }
            assert(content@.subrange(0, content@.len() as int) =~= content@);
        }
        let end = token_end(content, ctx);
        let token = slice_of(content, 0, end);
        if end == content.len() {
            match collect_folds(src, c, line_indent) {
                Err(e) => { return Err(e); },
                Ok(Some((more, next))) => {
                    let mut acc = slice_of(token.as_slice(), 0, token.len());
                    crate::text::extend(&mut acc, more.as_slice());
                    let t = to_string(acc.as_slice());
                    return match Number::parse_str(t.as_str()) {
                        Ok(num) => {
                            c.line = next;
                            Ok((DocNode::number(num), None))
                        },
                        Err(_) => {
                            let mut m = lit("invalid JSON number after folding: \"");
                            push_str(&mut m, acc.as_slice());
                            append_lit(&mut m, "\"");
                            Err(error_lit_owned(src, c, m))
                        },
                    };
                },
                Ok(None) => {},
            }
        }
        let t = to_string(token.as_slice());
        match Number::parse_str(t.as_str()) {
            Ok(num) => {
                if end > 0 {
                    return Ok((DocNode::number(num), Some(end)));
                }
            },
            Err(_) => {},
        }
        let mut m = lit("invalid JSON number: \"");
        push_str(&mut m, token.as_slice());
        append_lit(&mut m, "\"");
        return Err(error_at_col(src, c, col, m));
    }
    proof {
        reveal_strlit("true");
        reveal_strlit("false");
        reveal_strlit("null");
        assert("true"@ =~= seq!['t', 'r', 'u', 'e']);
        assert("false"@ =~= seq!['f', 'a', 'l', 's', 'e']);
        assert("null"@ =~= seq!['n', 'u', 'l', 'l']);
        if content@ =~= seq!['t', 'r', 'u', 'e'] {
            assert(content@.subrange(0, 4) =~= "true"@);
        }
        if content@ =~= seq!['f', 'a', 'l', 's', 'e'] {
            assert(content@.subrange(0, 5) =~= "false"@);
        }
        if content@ =~= seq!['n', 'u', 'l', 'l'] {
            assert(content@.subrange(0, 4) =~= "null"@);
        }
        assert(crate::jsonlit::digit_run(content@, 0) == 0);
        if lead {
            let v = content@.subrange(0, cut);
            assert(crate::jsonlit::digit_run(v, 0) == 0);
            if v =~= seq!['t', 'r', 'u', 'e'] {
                assert(content@.subrange(0, 4) =~= "true"@);
            }
            if v =~= seq!['f', 'a', 'l', 's', 'e'] {
                assert(content@.subrange(0, 5) =~= "false"@);
            }
            if v =~= seq!['n', 'u', 'l', 'l'] {
                assert(content@.subrange(0, 4) =~= "null"@);
            }
        }
    }
    if first == '.' && content.len() > 1 && '0' <= content[1] && content[1] <= '9' {
        let end = token_end(content, ctx);
        let token = slice_of(content, 0, end);
        let mut m = lit("invalid JSON number: \"");
        push_str(&mut m, token.as_slice());
        append_lit(&mut m, "\" (numbers must start with a digit)");
        return Err(error_at_col(src, c, col, m));
    }
    match check_attempted_bare_key(content, &src.opts) {
        Err(fault) => { return Err(error_at_col(src, c, col, describe_key_fault(fault))); },
        Ok(()) => {},
    }
    let end = token_end(content, ctx);
    let token = slice_of(content, 0, end);
    match miscased_literal(token.as_slice()) {
        Some(literal) => {
            let mut m = lit("`");
            push_str(&mut m, token.as_slice());
            append_lit(&mut m, "` is not a TJSON literal -- the literals are lowercase, so write `");
            append_lit(&mut m, literal);
            append_lit(&mut m, "`. Putting a space in front of it instead is valid TJSON, but it writes the string \"");
            push_str(&mut m, token.as_slice());
            append_lit(&mut m, "\" rather than the ");
            append_lit(&mut m, if eq_str(crate::text::to_chars(literal).as_slice(), "null") { "null value." } else { "boolean." });
            return Err(error_at_col(src, c, col, m));
        },
        None => {},
    }
    if starts_with_str(content, "/ ") || eq_str(content, "/") {
        return Err(error_at_col(src, c, col, lit("a `/ ` line continues a value from the line above it, and nothing above this line is left open. Remove the `/ `, or put the value it was meant to continue on the line above.")));
    }
    let line_has_colon = crate::text::find_char(src.lines[c.line].as_slice(), ':').is_some();
    if !line_has_colon && is_alphanumeric(first) {
        return Err(error_at_col(src, c, col, lit("there is no colon on this line, so it is not a key and a value. An object entry is written `key: value`. If the whole line was meant as a string, it needs a space in front of it -- the space is what opens a bare string.")));
    }
    match check_bare_string(content, &src.opts) {
        Ok(()) => Err(error_at_col(src, c, col, ladder_message(ctx))),
        Err(fault) => Err(error_at_col(src, c, col, describe_bare_fault(fault))),
    }
}

/// Read one value at the front of `content`. `Some(n)` says how much of the
/// line it took; `None` says it consumed lines of its own (a fold, a
/// multiline body, a packed array) and the reading is past them.
fn parse_inline_value(src: &Src, c: &mut Cur, content: &[char], line_indent: usize, ctx: Context, col: Option<usize>)
    -> (r: Result<(DocNode, Option<usize>), ParseError>)
    requires
        ok(src, old(c)),
        old(c).line < src.lines@.len(),
    ensures
        err_located(src, r),
        moved(src, old(c), final(c)),
        r matches Ok((_, Some(n))) ==> 0 < n <= content@.len() && final(c).line == old(c).line,
        r matches Ok((_, None)) ==> final(c).line > old(c).line,
        inline_read(src, *old(c), *final(c), content@, ctx, r),
        ctx is ObjectValue && content@.len() >= 2 && content@[0] == ' ' && content@[1] == ' '
            && no_fold_after(src, old(c).line as int)
            && packed_items(content@.subrange(2, content@.len() as int), src.opts) is Some
            && old(c).depth < MAX_DEPTH && line_indent + 2 <= usize::MAX
            && ablk(src, old(c), old(c).line + 1, line_indent + 2, MAX_DEPTH - old(c).depth - 1) is Some
            ==> (r matches Ok((n, None)) && n.data() == crate::value::Json::Array(
                    packed_items(content@.subrange(2, content@.len() as int), src.opts).unwrap()
                    + ablk(src, old(c), old(c).line + 1, line_indent + 2, MAX_DEPTH - old(c).depth - 1).unwrap().0)
                && final(c).line == ablk(src, old(c), old(c).line + 1, line_indent + 2, MAX_DEPTH - old(c).depth - 1).unwrap().1
                && final(c).frames@.len() == 0),
        content@.len() >= 2 && content@[0] == ' ' && content@[1] == '`'
            && old(c).frames@.len() == 0 && lines_fit(src)
            && multiline_read(src_text(src), src.opts, old(c).line as int, content@, line_indent as int) is Some
            ==> (r matches Ok((n, None)) && n.data() == crate::value::Json::Str(
                    multiline_read(src_text(src), src.opts, old(c).line as int, content@, line_indent as int).unwrap().0)
                && final(c).line == multiline_read(src_text(src), src.opts, old(c).line as int, content@, line_indent as int).unwrap().1
                && final(c).frames == old(c).frames),
        content@.len() > 0 && (content@[0] == ' ' || content@[0] == '_')
            && !(ctx is ObjectValue && content@.len() >= 2 && content@[0] == ' ' && content@[1] == ' ')
            && !(content@.len() >= 2 && content@[0] == ' ' && content@[1] == '`')
            ==> (folded_bare(src, old(c), content@, line_indent as int, ctx) matches Some((v, e))
                ==> (r matches Ok((n, None)) && n.data() == crate::value::Json::Str(v) && final(c).line == e)),
        content@.len() > 0 && (content@[0] == ' ' || content@[0] == '_')
            && !(ctx is ObjectValue && content@.len() >= 2 && content@[0] == ' ' && content@[1] == ' ')
            && !(content@.len() >= 2 && content@[0] == ' ' && content@[1] == '`')
            ==> (r matches Ok((n, _)) ==> n.string_form_spec() == Some(StringForm::Bare(
                if content@[0] == '_' { BareForm::Marked } else { BareForm::Plain }))),
        literal_read(content@, ctx, r),
        number_token(content@, ctx) is Some
            && (number_token(content@, ctx).unwrap().len() < content@.len() || no_fold_after(src, old(c).line as int))
            ==> number_read(number_token(content@, ctx).unwrap(), r),
        ctx is ObjectValue && content@.len() >= 2 && content@[0] == ' ' && content@[1] == ' '
            && no_fold_after(src, old(c).line as int) && mixed_packing(content@.subrange(2, content@.len() as int), src.opts)
            ==> r is Err,
    decreases MAX_DEPTH - old(c).depth, src.lines@.len() - old(c).line, if ctx is ObjectValue { 9int } else { 6int },
{
    if content.len() == 0 {
        return Err(error_lit(src, c, "expected a value"));
    }
    let ghost lead = ctx is ObjectValue && lead_value(content@, src.opts) is Some;
    let ghost cut = crate::lex::first_pair(content@, ' ', ' ');
    proof {
        if lead {
            lemma_lead_value(content@, src.opts);
            assert(content@.subrange(0, cut)[0] == content@[0]);
            if cut >= 2 {
                assert(content@.subrange(0, cut)[1] == content@[1]);
                assert(content@.subrange(0, cut).subrange(1, cut) =~= content@.subrange(1, cut));
            }
        }
    }
    let first = content[0];
    proof {
        reveal_strlit("  ");
        reveal_strlit(" `");
        reveal_strlit("[ ");
        assert(" `"@ =~= seq![' ', '`']);
        assert("  "@ =~= seq![' ', ' ']);
        assert("[ "@ =~= seq!['[', ' ']);
        let s = content@.subrange(1, content@.len() as int);
        if content@.len() >= 2 {
            assert(s[0] == content@[1]);
            assert(content@[1] == content@.subrange(0, 2)[1]);
            assert(content@.subrange(0, 2) =~= seq![content@[0], content@[1]]);
        }
    }
    if first == ' ' || first == '_' {
        if matches!(ctx, Context::ObjectValue) && starts_with_str(content, "  ") {
            let rest = from(content, 2);
            let v = match parse_inline_array(src, c, rest.as_slice(), line_indent, plus(col, 2)) {
                Ok(v) => v,
                Err(e) => { return Err(e); },
            };
            return Ok((v, None));
        }
        if starts_with_str(content, " `") {
            let (text, flavor) = match parse_multiline_string(src, c, content, line_indent) {
                Ok(v) => v,
                Err(e) => { return Err(e); },
            };
            return Ok((string_node(text, StringForm::Multiline(flavor)), None));
        }
        return inline_bare(src, c, content, line_indent, ctx, col);
    }
    if first == '"' {
        return inline_quoted(src, c, content, line_indent, ctx, col);
    }
    if first == '[' && matches!(ctx, Context::ObjectValue) && starts_with_str(content, "[ ") {
        let rest = from(content, 2);
        let v = match parse_inline_array(src, c, rest.as_slice(), line_indent, plus(col, 2)) {
            Ok(v) => v,
            Err(e) => { return Err(e); },
        };
        return Ok((v, None));
    }
    if first == '[' || first == '{' {
        return inline_bracketed(src, c, content, line_indent, ctx, col);
    }
    inline_token(src, c, content, line_indent, ctx, col)
}

fn error_lit_owned(src: &Src, c: &Cur, m: String) -> (r: ParseError)
    ensures
        placed(src, r),
{
    error_current(src, c, m)
}


// ---- Documents ----

/// What is read of `input` once a leading byte order mark has been dealt with:
/// the whole of it, or all but the mark when the reading discards one.
pub open spec fn body_of(input: Seq<char>, o: ParseOptions) -> Seq<char> {
    if input.len() > 0 && input[0] == '\u{FEFF}' && o.byte_order_mark_spec() == ByteOrderMark::Discard {
        input.drop_first()
    } else {
        input
    }
}

/// What a scalar written alone on its line reads as: MINIMAL JSON, a JSON
/// string, a bare string behind its opening space or `_`, `true`, `false`,
/// `null`, or a number. `None` when the text is none of these, or is a bare
/// string whose opening space and first backtick would open a multiline
/// string instead.
pub open spec fn lone_scalar(t: Seq<char>, o: ParseOptions) -> Option<crate::value::Json> {
    if crate::lex::minimal_json_candidate(t) {
        crate::minimal::minimal_json(t)
    } else if t.len() >= 1 && (t[0] == ' ' || t[0] == '_') {
        let s = t.subrange(1, t.len() as int);
        if crate::lex::bare_string_ok(s, o) && !(t[0] == ' ' && s[0] == '`') {
            Some(crate::value::Json::Str(s))
        } else {
            None
        }
    } else if t.len() >= 1 && t[0] == '"' {
        match crate::lex::json_string_prefix(t) {
            Some((v, n)) => if n == t.len() { Some(crate::value::Json::Str(v)) } else { None },
            None => None,
        }
    } else if t == seq!['t', 'r', 'u', 'e'] {
        Some(crate::value::Json::Bool(true))
    } else if t == seq!['f', 'a', 'l', 's', 'e'] {
        Some(crate::value::Json::Bool(false))
    } else if t == seq!['n', 'u', 'l', 'l'] {
        Some(crate::value::Json::Null)
    } else if crate::jsonlit::json_number(t) {
        Some(crate::value::Json::Number(t))
    } else {
        None
    }
}

/// One element at the front of the text `t` of an array line that packs
/// several: its value, how far it runs, and whether it is a bare string. A
/// bare string runs behind its opener to the first double space; a JSON
/// string to its closing quote; `true`, `false` and `null` must end the text
/// or meet a comma; a number runs to `, `, to two spaces, or short of a final
/// comma.
pub open spec fn packed_item(t: Seq<char>, o: ParseOptions) -> Option<(crate::value::Json, int, bool)> {
    if t.len() >= 1 && (t[0] == ' ' || t[0] == '_') {
        let end = crate::lex::bare_run_end(t);
        if 2 <= end <= t.len() {
            let s = t.subrange(1, end);
            if crate::lex::bare_string_ok(s, o) && !(t[0] == ' ' && s[0] == '`') {
                Some((crate::value::Json::Str(s), end, true))
            } else {
                None
            }
        } else {
            None
        }
    } else if t.len() >= 1 && t[0] == '"' {
        match crate::lex::json_string_prefix(t) {
            Some((v, n)) => Some((crate::value::Json::Str(v), n as int, false)),
            None => None,
        }
    } else if crate::text::is_prefix(seq!['t', 'r', 'u', 'e'], t) {
        if t.len() == 4 || t[4] == ',' { Some((crate::value::Json::Bool(true), 4, false)) } else { None }
    } else if crate::text::is_prefix(seq!['f', 'a', 'l', 's', 'e'], t) {
        if t.len() == 5 || t[5] == ',' { Some((crate::value::Json::Bool(false), 5, false)) } else { None }
    } else if crate::text::is_prefix(seq!['n', 'u', 'l', 'l'], t) {
        if t.len() == 4 || t[4] == ',' { Some((crate::value::Json::Null, 4, false)) } else { None }
    } else if t.len() >= 1 && (t[0] == '-' || crate::jsonlit::is_digit(t[0])) {
        let end = crate::lex::token_end_spec(t, Context::ArrayLine(Packing::Undetermined));
        if 0 < end <= t.len() && crate::jsonlit::json_number(t.subrange(0, end)) {
            Some((crate::value::Json::Number(t.subrange(0, end)), end, false))
        } else {
            None
        }
    } else {
        None
    }
}

/// An array line's text `t` that mixes what one line may not: elements
/// parted by `, ` until a bare string follows, or bare strings parted by two
/// spaces until an element that is no bare string follows.
#[verifier::opaque]
pub open spec fn mixed_packing(t: Seq<char>, o: ParseOptions) -> bool
    decreases t.len(),
{
    match packed_item(t, o) {
        Some((v, n, b)) => 0 < n && n + 2 < t.len() && {
            let rest = t.subrange(n + 2, t.len() as int);
            let bare_next = rest[0] == ' ' || rest[0] == '_';
            &&& !crate::text::all_spaces(rest)
            &&& if b {
                t[n] == ' ' && t[n + 1] == ' ' && (!bare_next || mixed_packing(rest, o))
            } else {
                t[n] == ',' && t[n + 1] == ' ' && (bare_next || mixed_packing(rest, o))
            }
        },
        None => false,
    }
}

/// The elements of an array line's text `t` when they are all bare strings
/// (`bare`), each after the last past two spaces, or none of them is, each
/// after the last past `, `.
pub open spec fn packed_run(t: Seq<char>, o: ParseOptions, bare: bool) -> Option<Seq<crate::value::Json>>
    decreases t.len(),
{
    match packed_item(t, o) {
        Some((v, n, b)) => if b == bare && 0 < n <= t.len() {
            if n == t.len() {
                Some(seq![v])
            } else if n + 2 < t.len() && t[n] == (if bare { ' ' } else { ',' }) && t[n + 1] == ' ' {
                match packed_run(t.subrange(n + 2, t.len() as int), o, bare) {
                    Some(more) => Some(seq![v] + more),
                    None => None,
                }
            } else {
                None
            }
        } else {
            None
        },
        None => None,
    }
}

/// The elements an array line's text `t` packs, the first deciding whether
/// they are bare strings parted by two spaces or other scalars parted by `, `.
pub open spec fn packed_items(t: Seq<char>, o: ParseOptions) -> Option<Seq<crate::value::Json>> {
    packed_run(t, o, t.len() > 0 && (t[0] == ' ' || t[0] == '_'))
}

/// A line holding an array written as compact JSON (MINIMAL JSON) reads as
/// that array: for every array built of `null`, `true`, `false`, numbers and
/// arrays, nested no deeper than MINIMAL JSON allows, the lone scalar its
/// text spells is that very array, `false` read as false.
pub proof fn law_lone_minimal_array(v: crate::value::Json, o: ParseOptions)
    requires
        v is Array,
        crate::minimal::plain_json(v, crate::minimal::MINIMAL_DEPTH as nat),
    ensures
        lone_scalar(crate::minimal::json_text(v), o) == Some(v),
{
    crate::minimal::lemma_array_text_opens(v);
    crate::minimal::law_minimal_reads_what_it_spells(v);
}

/// What a document's only line reads as when it holds a lone scalar at the
/// reading's starting indent (an even number of spaces).
pub open spec fn lone_line(line: Seq<char>, o: ParseOptions) -> Option<crate::value::Json> {
    let k = o.start_indent_spec() as int;
    if k % 2 == 0 && k <= line.len() && crate::text::all_spaces(line.subrange(0, k)) {
        lone_scalar(line.subrange(k, line.len() as int), o)
    } else {
        None
    }
}

/// The key that opens an entry's text `e`, and where its value starts, just
/// past the colon: a bare key, or a JSON string.
pub open spec fn entry_key(e: Seq<char>, o: ParseOptions) -> Option<(Seq<char>, int)> {
    match crate::lex::bare_key_prefix(e, o) {
        Some(n) => if n < e.len() && e[n as int] == ':' { Some((e.subrange(0, n as int), n + 1int)) } else { None },
        None => match crate::lex::json_string_prefix(e) {
            Some((k, n)) => if n < e.len() && e[n as int] == ':' { Some((k, n + 1int)) } else { None },
            None => None,
        },
    }
}

/// What the text after an entry's colon reads as when it is a lone scalar
/// filling the rest of the line.
pub open spec fn entry_scalar(v: Seq<char>, o: ParseOptions) -> Option<crate::value::Json> {
    if crate::lex::minimal_json_candidate(v) && crate::lex::bracket_close(v, 0, 0, false) != Some(v.len() as int) {
        None
    } else {
        lone_scalar(v, o)
    }
}

/// The value at the front of an entry's value text: the text up to its first
/// run of two spaces, when that reads as a lone scalar, and how long it is.
pub open spec fn lead_value(t: Seq<char>, o: ParseOptions) -> Option<(crate::value::Json, int)> {
    let cut = crate::lex::first_pair(t, ' ', ' ');
    match entry_scalar(t.subrange(0, cut), o) {
        Some(v) => Some((v, cut)),
        None => None,
    }
}

/// What the reading of a value at the front of a line sees when the value
/// text is a lone scalar followed by nothing or by two spaces.
proof fn lemma_lead_value(t: Seq<char>, o: ParseOptions)
    requires
        lead_value(t, o) is Some,
    ensures
        ({
            let cut = crate::lex::first_pair(t, ' ', ' ');
            let v = t.subrange(0, cut);
            &&& 1 <= cut <= t.len()
            &&& (cut < t.len() ==> cut + 1 < t.len() && t[cut] == ' ' && t[cut + 1] == ' ')
            &&& entry_scalar(v, o) == Some(lead_value(t, o).unwrap().0)
            &&& ((t[0] == ' ' || t[0] == '_') ==> crate::lex::bare_run_end(t) == cut)
            &&& (t[0] == '"' ==> crate::lex::json_string_prefix(t) == crate::lex::json_string_prefix(v))
            &&& (crate::lex::minimal_json_candidate(v)
                ==> crate::lex::bracket_close(t, 0, 0, false) == crate::lex::bracket_close(v, 0, 0, false))
            &&& (crate::jsonlit::json_number(v) ==> crate::lex::token_end_spec(t, Context::ObjectValue) == cut)
            &&& (cut < t.len() ==> v[cut - 1] != ' ')
        }),
{
    let cut = crate::lex::first_pair(t, ' ', ' ');
    let v = t.subrange(0, cut);
    let tail = t.subrange(cut, t.len() as int);
    crate::lex::lemma_first_pair(t, ' ', ' ');
    assert(t =~= v + tail);
    assert(v.len() >= 1);
    if cut < t.len() && v[cut - 1] == ' ' {
        let i = cut - 1;
        assert(t[i] == ' ' && t[i + 1] == ' ');
        assert(!(t[i] == ' ' && t[i + 1] == ' '));
    }
    if t[0] == ' ' || t[0] == '_' {
        let s = v.subrange(1, cut);
        assert(v =~= seq![t[0]] + s);
        crate::lex::lemma_bare_run_whole(t[0], s, o);
        crate::lex::lemma_first_pair(v, ' ', ' ');
        if cut < t.len() {
            assert(crate::lex::first_pair(v, ' ', ' ') == v.len()) by {
                crate::lex::lemma_first_pair_absent_pair(v, t);
            }
        }
    }
    if t[0] == '"' {
        if entry_scalar(v, o) is Some {
            crate::lex::lemma_json_string_prefix_extend(v, tail);
        }
    }
    if crate::lex::minimal_json_candidate(v) && crate::lex::bracket_close(v, 0, 0, false) is Some {
        crate::lex::lemma_bracket_close_prefix(v, tail, 0, 0, false);
    }
    if crate::jsonlit::json_number(v) {
        crate::jsonlit::lemma_json_number_edges(v);
        assert(t.subrange(0, cut) =~= v);
    }
}

/// The entries a line's text holds: a key and its value, then, past a run of
/// two spaces or more, the next entry, and so on. Each value runs to the first
/// run of two spaces and is a lone scalar.
pub open spec fn packed_entries(e: Seq<char>, o: ParseOptions) -> Option<Seq<(Seq<char>, crate::value::Json)>>
    decreases e.len(),
{
    match entry_key(e, o) {
        Some((k, p)) => if 0 < p <= e.len() {
            let rest = e.subrange(p, e.len() as int);
            match lead_value(rest, o) {
                Some((v, n)) => if 0 < n <= rest.len() {
                    let after = rest.subrange(n, rest.len() as int);
                    if after.len() == 0 {
                        Some(seq![(k, v)])
                    } else {
                        let sc = crate::text::leading_spaces(after) as int;
                        if sc < after.len() {
                            match packed_entries(after.subrange(sc, after.len() as int), o) {
                                Some(more) => Some(seq![(k, v)] + more),
                                None => None,
                            }
                        } else {
                            None
                        }
                    }
                } else {
                    None
                },
                None => None,
            }
        } else {
            None
        },
        None => None,
    }
}

/// A line of an object whose entries sit at `indent`: the entries it holds,
/// each a key and a lone scalar (when its text opens with neither a nesting
/// marker nor a solidus).
pub open spec fn entry_line(line: Seq<char>, o: ParseOptions, indent: int) -> Option<Seq<(Seq<char>, crate::value::Json)>> {
    if 0 <= indent <= line.len() && crate::text::all_spaces(line.subrange(0, indent)) && value_line(line) {
        let e = line.subrange(indent, line.len() as int);
        if crate::lex::marker_chain_start(e) || (e.len() > 0 && e[0] == '/') { None } else { packed_entries(e, o) }
    } else {
        None
    }
}

/// An entry's text `e` whose value is an array opened by two spaces after
/// the colon: the key and the elements the rest of the text packs.
pub open spec fn array_entry(e: Seq<char>, o: ParseOptions) -> Option<(Seq<char>, Seq<crate::value::Json>)> {
    match entry_key(e, o) {
        Some((k, p)) => if 0 < p && p + 2 <= e.len() && e[p] == ' ' && e[p + 1] == ' ' {
            match packed_items(e.subrange(p + 2, e.len() as int), o) {
                Some(items) => Some((k, items)),
                None => None,
            }
        } else {
            None
        },
        None => None,
    }
}

/// A line at `indent` holding one key whose value is an array that opens on
/// the line itself: the key and the elements written there.
pub open spec fn array_entry_line(line: Seq<char>, o: ParseOptions, indent: int) -> Option<(Seq<char>, Seq<crate::value::Json>)> {
    if 0 <= indent <= line.len() && crate::text::all_spaces(line.subrange(0, indent)) && value_line(line) {
        let e = line.subrange(indent, line.len() as int);
        if crate::lex::marker_chain_start(e) || (e.len() > 0 && e[0] == '/') {
            None
        } else {
            array_entry(e, o)
        }
    } else {
        None
    }
}

/// An entry's text `e` whose value is a multiline string opened after the
/// colon: the key and the text from the opener on.
pub open spec fn multiline_entry(e: Seq<char>, o: ParseOptions) -> Option<(Seq<char>, Seq<char>)> {
    match entry_key(e, o) {
        Some((k, p)) => if 0 < p <= e.len() {
            let t = e.subrange(p, e.len() as int);
            if t.len() >= 2 && t[0] == ' ' && t[1] == '`' { Some((k, t)) } else { None }
        } else {
            None
        },
        None => None,
    }
}

/// A line at `indent` holding one key whose value is a multiline string that
/// opens on the line: the key and the text from the opener on.
pub open spec fn multiline_entry_line(line: Seq<char>, o: ParseOptions, indent: int) -> Option<(Seq<char>, Seq<char>)> {
    if 0 <= indent <= line.len() && crate::text::all_spaces(line.subrange(0, indent)) && value_line(line) {
        let e = line.subrange(indent, line.len() as int);
        if crate::lex::marker_chain_start(e) || (e.len() > 0 && e[0] == '/') {
            None
        } else {
            multiline_entry(e, o)
        }
    } else {
        None
    }
}

/// The key of an entry's text that holds nothing after its colon.
pub open spec fn key_only(e: Seq<char>, o: ParseOptions) -> Option<Seq<char>> {
    match entry_key(e, o) {
        Some((k, p)) => if p == e.len() { Some(k) } else { None },
        None => None,
    }
}

/// A line at `indent` holding a key and its colon and nothing after: the key
/// of an entry whose value sits on the lines below.
pub open spec fn key_line(line: Seq<char>, o: ParseOptions, indent: int) -> Option<Seq<char>> {
    if 0 <= indent <= line.len() && crate::text::all_spaces(line.subrange(0, indent)) && value_line(line) {
        let e = line.subrange(indent, line.len() as int);
        if crate::lex::marker_chain_start(e) || (e.len() > 0 && e[0] == '/') {
            None
        } else {
            key_only(e, o)
        }
    } else {
        None
    }
}

/// A line of an object at `indent`: entries with their values, a key whose
/// array or multiline string opens on the line, or a key whose value is
/// below.
pub open spec fn item_line(line: Seq<char>, o: ParseOptions, indent: int) -> bool {
    entry_line(line, o, indent) is Some || array_entry_line(line, o, indent) is Some
        || multiline_entry_line(line, o, indent) is Some || key_line(line, o, indent) is Some
}

/// The first line at or after `k` that is no comment line.
pub open spec fn skip_comment_lines(lines: Seq<Seq<char>>, k: int) -> int
    decreases lines.len() - k,
{
    if k < 0 || k >= lines.len() || !comment_line(lines[k]) { k } else { skip_comment_lines(lines, k + 1) }
}

/// The first line from `l` on that is no comment, if there is one, is no
/// `/ ` continuation: nothing folds onto the line before `l`.
pub open spec fn unfolded(lines: Seq<Seq<char>>, l: int) -> bool {
    let p = skip_comment_lines(lines, l);
    p < 0 || p >= lines.len() || {
        let n = lines[p];
        !crate::text::is_prefix(seq!['/', ' '], n.subrange(crate::text::leading_spaces(n) as int, n.len() as int))
    }
}

/// A line of an array whose elements sit at `indent`: the elements it holds
/// (a bare string's opening space or `_` standing at the indent), when the
/// line is no entry: one MINIMAL JSON value, or scalars packed as
/// `packed_items` reads them.
pub open spec fn element_line(line: Seq<char>, o: ParseOptions, indent: int) -> Option<Seq<crate::value::Json>> {
    if 0 <= indent <= line.len() && crate::text::all_spaces(line.subrange(0, indent)) && value_line(line) {
        let e = line.subrange(indent, line.len() as int);
        if entry_key(e, o) is Some {
            None
        } else if crate::lex::minimal_json_candidate(e) {
            match crate::minimal::minimal_json(e) {
                Some(v) => Some(seq![v]),
                None => None,
            }
        } else {
            packed_items(e, o)
        }
    } else {
        None
    }
}

/// A line at `indent` that opens an object with `{ `: the entries packed on
/// the rest of the line.
pub open spec fn open_line(line: Seq<char>, o: ParseOptions, indent: int) -> Option<Seq<(Seq<char>, crate::value::Json)>> {
    if 0 <= indent <= line.len() && crate::text::all_spaces(line.subrange(0, indent)) && value_line(line) {
        let e = line.subrange(indent, line.len() as int);
        if e.len() > 2 && e[0] == '{' && e[1] == ' ' { packed_entries(e.subrange(2, e.len() as int), o) } else { None }
    } else {
        None
    }
}

/// A line at `indent` that opens an array whose first element is an object,
/// with `[ { `: the entries packed on the rest of the line.
pub open spec fn array_open_line(line: Seq<char>, o: ParseOptions, indent: int) -> Option<Seq<(Seq<char>, crate::value::Json)>> {
    if 0 <= indent <= line.len() && crate::text::all_spaces(line.subrange(0, indent)) && value_line(line) {
        let e = line.subrange(indent, line.len() as int);
        if e.len() > 4 && e[0] == '[' && e[1] == ' ' && e[2] == '{' && e[3] == ' ' {
            packed_entries(e.subrange(4, e.len() as int), o)
        } else {
            None
        }
    } else {
        None
    }
}

/// The array a `[ { ` line at `indent - 2` opens, when `room` levels are left
/// for it: the object whose entries follow the markers and go on at
/// `indent + 2`, then the elements at `indent`; and the line after it.
pub open spec fn chain_value(lines: Seq<Seq<char>>, o: ParseOptions, line: int, indent: int, room: nat)
    -> Option<(crate::value::Json, int)>
{
    if 0 <= line < lines.len() && room >= 1 && unfolded(lines, line + 1) {
        match array_open_line(lines[line], o, indent - 2) {
            Some(first) => match obj_block(lines, o, line + 1, indent + 2, room) {
                Some((more, next)) => if line < next <= lines.len() {
                    match arr_block(lines, o, next, indent, room) {
                        Some((rest, after)) => if next <= after <= lines.len() {
                            Some((crate::value::Json::Array(seq![crate::value::Json::Object(first + more)] + rest), after))
                        } else {
                            None
                        },
                        None => None,
                    }
                } else {
                    None
                },
                None => None,
            },
            None => None,
        }
    } else {
        None
    }
}

/// Where reading goes on past a run of comment lines from `k`: its end,
/// when no comment in it steps out past the one above and what follows it
/// is the end of the text or a line of text that continues no value.
pub open spec fn skip_comments(lines: Seq<Seq<char>>, k: int) -> Option<int> {
    match comment_lines_end(lines, k, 0) {
        Some(e) => if e >= lines.len() || (0 <= e && value_line(lines[e])
            && !crate::text::is_prefix(seq!['/', ' '], after_spaces(lines[e])))
        {
            Some(e)
        } else {
            None
        },
        None => None,
    }
}

/// The elements of an array at `indent` read from line `from`, line by line,
/// and the line after its last: the scalars each line holds, or the object a
/// `{ ` line opens, its entries going on at the next indent below (no more
/// than `room` levels deep). The array ends at the end of the text or at a
/// line indented less.
#[verifier::opaque]
pub open spec fn arr_block(lines: Seq<Seq<char>>, o: ParseOptions, from: int, indent: int, room: nat)
    -> Option<(Seq<crate::value::Json>, int)>
    decreases lines.len() - from,
{
    if from < 0 {
        None
    } else if from >= lines.len() {
        Some((Seq::empty(), from))
    } else if comment_line(lines[from]) {
        match skip_comments(lines, from) {
            Some(e) => if from < e <= lines.len() { arr_block(lines, o, e, indent, room) } else { None },
            None => None,
        }
    } else {
        let line = lines[from];
        if ends_at(line, indent) {
            if plain_end(line) { Some((Seq::empty(), from)) } else { None }
        } else {
            match element_line(line, o, indent) {
                Some(vs) => if unfolded(lines, from + 1) {
                    match arr_block(lines, o, from + 1, indent, room) {
                        Some((rest, next)) => Some((vs + rest, next)),
                        None => None,
                    }
                } else {
                    None
                },
                None => match open_line(line, o, indent) {
                    Some(first) => if room > 0 && unfolded(lines, from + 1) {
                        match obj_block(lines, o, from + 1, indent + 2, (room - 1) as nat) {
                            Some((more, next)) => if from < next <= lines.len() {
                                match arr_block(lines, o, next, indent, room) {
                                    Some((rest, last)) => Some((seq![crate::value::Json::Object(first + more)] + rest, last)),
                                    None => None,
                                }
                            } else {
                                None
                            },
                            None => None,
                        }
                    } else {
                        None
                    },
                    None => None,
                },
            }
        }
    }
}

/// The entries of an object at `indent` read from line `from`, and the line
/// after its last: entries with a lone scalar each share a line; a key and
/// two spaces take the array packed on the rest of the line, and its element
/// lines below; a key and a multiline opener take the string; a key alone
/// takes the object, the array or the table at the next indent below it (no
/// more than `room` levels deep). The object ends at the end of the text or
/// at a line indented less.
#[verifier::opaque]
pub open spec fn obj_block(lines: Seq<Seq<char>>, o: ParseOptions, from: int, indent: int, room: nat)
    -> Option<(Seq<(Seq<char>, crate::value::Json)>, int)>
    decreases lines.len() - from,
{
    if from < 0 {
        None
    } else if from >= lines.len() {
        Some((Seq::empty(), from))
    } else if comment_line(lines[from]) {
        match skip_comments(lines, from) {
            Some(e) => if from < e <= lines.len() { obj_block(lines, o, e, indent, room) } else { None },
            None => None,
        }
    } else {
        let line = lines[from];
        if ends_at(line, indent) {
            if plain_end(line) { Some((Seq::empty(), from)) } else { None }
        } else {
            match entry_line(line, o, indent) {
                Some(kvs) => if unfolded(lines, from + 1) {
                    match obj_block(lines, o, from + 1, indent, room) {
                        Some((rest, next)) => Some((kvs + rest, next)),
                        None => None,
                    }
                } else {
                    None
                },
                None => match array_entry_line(line, o, indent) {
                    Some((k, items)) => if room == 0 || !unfolded(lines, from + 1) {
                        None
                    } else {
                        match arr_block(lines, o, from + 1, indent + 2, (room - 1) as nat) {
                            Some((more, next)) => if from + 1 <= next <= lines.len() {
                                match obj_block(lines, o, next, indent, room) {
                                    Some((rest, last)) => Some((seq![(k, crate::value::Json::Array(items + more))] + rest, last)),
                                    None => None,
                                }
                            } else {
                                None
                            },
                            None => None,
                        }
                    },
                    None => match multiline_entry_line(line, o, indent) {
                        Some((k, t)) => match multiline_read(lines, o, from, t, indent) {
                            Some((v, next)) => if from < next <= lines.len() {
                                match obj_block(lines, o, next, indent, room) {
                                    Some((rest, last)) => Some((seq![(k, crate::value::Json::Str(v))] + rest, last)),
                                    None => None,
                                }
                            } else {
                                None
                            },
                            None => None,
                        },
                        None => match key_line(line, o, indent) {
                            Some(k) => if room == 0 || from + 1 >= lines.len() {
                                None
                            } else if item_line(lines[from + 1], o, indent + 2) {
                                match obj_block(lines, o, from + 1, indent + 2, (room - 1) as nat) {
                                    Some((inner, next)) => if inner.len() > 0 && from + 1 < next <= lines.len() {
                                        match obj_block(lines, o, next, indent, room) {
                                            Some((rest, last)) => Some((seq![(k, crate::value::Json::Object(inner))] + rest, last)),
                                            None => None,
                                        }
                                    } else {
                                        None
                                    },
                                    None => None,
                                }
                            } else if element_line(lines[from + 1], o, indent + 2) is Some {
                                match arr_block(lines, o, from + 1, indent + 2, (room - 1) as nat) {
                                    Some((items, next)) => if items.len() > 0 && from + 1 < next <= lines.len() {
                                        match obj_block(lines, o, next, indent, room) {
                                            Some((rest, last)) => Some((seq![(k, crate::value::Json::Array(items))] + rest, last)),
                                            None => None,
                                        }
                                    } else {
                                        None
                                    },
                                    None => None,
                                }
                            } else if array_open_line(lines[from + 1], o, indent) is Some {
                                let first = array_open_line(lines[from + 1], o, indent).unwrap();
                                if room >= 2 && unfolded(lines, from + 2) {
                                    match obj_block(lines, o, from + 2, indent + 4, (room - 1) as nat) {
                                        Some((more, next)) => if from + 1 < next <= lines.len() {
                                            match arr_block(lines, o, next, indent + 2, (room - 1) as nat) {
                                                Some((rest, after)) => if next <= after <= lines.len() {
                                                    match obj_block(lines, o, after, indent, room) {
                                                        Some((tail, last)) => Some((seq![(k, crate::value::Json::Array(
                                                            seq![crate::value::Json::Object(first + more)] + rest))] + tail, last)),
                                                        None => None,
                                                    }
                                                } else {
                                                    None
                                                },
                                                None => None,
                                            }
                                        } else {
                                            None
                                        },
                                        None => None,
                                    }
                                } else {
                                    None
                                }
                            } else {
                                match table_block(lines, o, from + 1, indent + 2) {
                                    Some((rows, next)) => if from + 1 < next <= lines.len() {
                                        match obj_block(lines, o, next, indent, room) {
                                            Some((rest, last)) => Some((seq![(k, crate::value::Json::Array(rows))] + rest, last)),
                                            None => None,
                                        }
                                    } else {
                                        None
                                    },
                                    None => None,
                                }
                            },
                            None => None,
                        },
                    },
                },
            }
        }
    }
}

/// The value whose first line is `line`, at `indent`: the object whose first
/// entry is there (no more than `room` levels deeper), the array whose first
/// element is or that a `[ { ` line one level out opens, or the table whose
/// header is; and the line after it.
pub open spec fn below_value(lines: Seq<Seq<char>>, o: ParseOptions, line: int, indent: int, room: nat)
    -> Option<(crate::value::Json, int)>
{
    if 0 <= line < lines.len() && item_line(lines[line], o, indent) {
        match obj_block(lines, o, line, indent, room) {
            Some((inner, next)) => if inner.len() > 0 && line < next <= lines.len() {
                Some((crate::value::Json::Object(inner), next))
            } else {
                None
            },
            None => None,
        }
    } else if 0 <= line < lines.len() && element_line(lines[line], o, indent) is Some {
        match arr_block(lines, o, line, indent, room) {
            Some((items, next)) => if items.len() > 0 && line < next <= lines.len() {
                Some((crate::value::Json::Array(items), next))
            } else {
                None
            },
            None => None,
        }
    } else if 0 <= line < lines.len() && array_open_line(lines[line], o, indent - 2) is Some {
        chain_value(lines, o, line, indent, room)
    } else {
        match table_block(lines, o, line, indent) {
            Some((rows, next)) => if line < next <= lines.len() {
                Some((crate::value::Json::Array(rows), next))
            } else {
                None
            },
            None => None,
        }
    }
}

/// What a document reads as when it is one object one level in from the
/// starting indent (an even number of spaces), its entries nested where a key
/// stands alone, or one array there (of lines of scalars and of objects), or
/// one table: that object or array, in the order written.
pub open spec fn nested_value(lines: Seq<Seq<char>>, o: ParseOptions) -> Option<crate::value::Json> {
    let k = o.start_indent_spec() as int;
    if k % 2 == 0 {
        match skip_comments(lines, 0) {
            Some(s) => match below_value(lines, o, s, k + 2, (MAX_DEPTH - 1) as nat) {
                Some((v, next)) => if next == lines.len() { Some(v) } else { None },
                None => None,
            },
            None => None,
        }
    } else {
        None
    }
}

/// A line of an object at an even indent reads as indented to that indent
/// with no opener, and is neither a closer, a fold continuation, a table row
/// nor a marker chain.
proof fn lemma_item_line(line: Seq<char>, o: ParseOptions, k: int)
    requires
        item_line(line, o, k),
        k % 2 == 0,
        line.len() <= usize::MAX,
    ensures
        ({
            let e = line.subrange(k, line.len() as int);
            &&& e.len() >= 1
            &&& e[0] != ' ' && e[0] != '|' && e[0] != '/' && e[0] != '_'
            &&& !crate::lex::marker_chain_start(e)
            &&& crate::text::leading_spaces(line) == k
            &&& crate::lex::leading_of(line) == Ok::<Leading, nat>(Leading { indent: k as usize, opener: Opener::Nothing })
            &&& entry_key(e, o) is Some
            &&& value_line(line)
            &&& line.subrange(k, line.len() as int) != seq!['/', '>']
            &&& !crate::text::is_prefix(seq!['/', ' '], line.subrange(k, line.len() as int))
        }),
{
    let e = line.subrange(k, line.len() as int);
    crate::options::lemma_pipe_and_low_line_are_like(o);
    assert forall|i: int| 0 <= i < k implies line[i] == ' ' by {
        assert(line.subrange(0, k)[i] == line[i]);
    }
    assert(e.len() >= 1);
    assert(e[0] == line[k]);
    crate::text::lemma_leading_spaces_unique(line, k as nat);
    assert(seq!['/', '>'][0] == '/');
    assert(seq!['/', ' '][0] == '/');
}

/// What a value below reads as, by the kind of its first line.
proof fn lemma_below_value(lines: Seq<Seq<char>>, o: ParseOptions, line: int, indent: int, room: nat)
    requires
        below_value(lines, o, line, indent, room) is Some,
    ensures
        0 <= line < lines.len(),
        item_line(lines[line], o, indent) ==> ({
            &&& obj_block(lines, o, line, indent, room) is Some
            &&& obj_block(lines, o, line, indent, room).unwrap().0.len() > 0
            &&& line < obj_block(lines, o, line, indent, room).unwrap().1 <= lines.len()
            &&& below_value(lines, o, line, indent, room) == Some((
                crate::value::Json::Object(obj_block(lines, o, line, indent, room).unwrap().0),
                obj_block(lines, o, line, indent, room).unwrap().1))
        }),
        !item_line(lines[line], o, indent) && element_line(lines[line], o, indent) is None
            && array_open_line(lines[line], o, indent - 2) is Some ==> ({
            &&& chain_value(lines, o, line, indent, room) is Some
            &&& below_value(lines, o, line, indent, room) == chain_value(lines, o, line, indent, room)
        }),
        !item_line(lines[line], o, indent) && element_line(lines[line], o, indent) is None
            && array_open_line(lines[line], o, indent - 2) is None ==> ({
            &&& table_block(lines, o, line, indent) is Some
            &&& line < table_block(lines, o, line, indent).unwrap().1 <= lines.len()
            &&& below_value(lines, o, line, indent, room) == Some((
                crate::value::Json::Array(table_block(lines, o, line, indent).unwrap().0),
                table_block(lines, o, line, indent).unwrap().1))
        }),
        !item_line(lines[line], o, indent) && element_line(lines[line], o, indent) is Some ==> ({
            &&& element_line(lines[line], o, indent) is Some
            &&& arr_block(lines, o, line, indent, room) is Some
            &&& arr_block(lines, o, line, indent, room).unwrap().0.len() > 0
            &&& line < arr_block(lines, o, line, indent, room).unwrap().1 <= lines.len()
            &&& below_value(lines, o, line, indent, room) == Some((
                crate::value::Json::Array(arr_block(lines, o, line, indent, room).unwrap().0),
                arr_block(lines, o, line, indent, room).unwrap().1))
        }),
{
}

/// One step of reading an object block: the line at `from` ends it, is an
/// entry line, or is a key whose value is below it.
#[verifier::rlimit(80)]
#[verifier::spinoff_prover]
proof fn lemma_obj_block_step(lines: Seq<Seq<char>>, o: ParseOptions, from: int, indent: int, room: nat)
    requires
        obj_block(lines, o, from, indent, room) is Some,
        0 <= from,
    ensures
        from >= lines.len() ==> obj_block(lines, o, from, indent, room) == Some((Seq::<(Seq<char>, crate::value::Json)>::empty(), from)),
        from < lines.len() && comment_line(lines[from]) ==> skip_comments(lines, from) is Some
            && from < skip_comments(lines, from).unwrap()
            && obj_block(lines, o, from, indent, room) == obj_block(lines, o, skip_comments(lines, from).unwrap(), indent, room),
        from < lines.len() && !comment_line(lines[from]) ==> ({
            let line = lines[from];
            let here = obj_block(lines, o, from, indent, room).unwrap();
            if ends_at(line, indent) {
                plain_end(line) && here == (Seq::<(Seq<char>, crate::value::Json)>::empty(), from)
            } else if entry_line(line, o, indent) is Some {
                &&& unfolded(lines, from + 1)
                &&& obj_block(lines, o, from + 1, indent, room) is Some
                &&& here.0 == entry_line(line, o, indent).unwrap() + obj_block(lines, o, from + 1, indent, room).unwrap().0
                &&& here.1 == obj_block(lines, o, from + 1, indent, room).unwrap().1
            } else if array_entry_line(line, o, indent) is None && multiline_entry_line(line, o, indent) is Some {
                let (k, t) = multiline_entry_line(line, o, indent).unwrap();
                &&& multiline_read(lines, o, from, t, indent) is Some
                &&& ({
                    let (v, next) = multiline_read(lines, o, from, t, indent).unwrap();
                    &&& from < next <= lines.len()
                    &&& obj_block(lines, o, next, indent, room) is Some
                    &&& here.0 == seq![(k, crate::value::Json::Str(v))] + obj_block(lines, o, next, indent, room).unwrap().0
                    &&& here.1 == obj_block(lines, o, next, indent, room).unwrap().1
                })
            } else if array_entry_line(line, o, indent) is Some {
                let (k, items) = array_entry_line(line, o, indent).unwrap();
                &&& room > 0
                &&& unfolded(lines, from + 1)
                &&& arr_block(lines, o, from + 1, indent + 2, (room - 1) as nat) is Some
                &&& ({
                    let (more, next) = arr_block(lines, o, from + 1, indent + 2, (room - 1) as nat).unwrap();
                    &&& from < next <= lines.len()
                    &&& obj_block(lines, o, next, indent, room) is Some
                    &&& here.0 == seq![(k, crate::value::Json::Array(items + more))] + obj_block(lines, o, next, indent, room).unwrap().0
                    &&& here.1 == obj_block(lines, o, next, indent, room).unwrap().1
                })
            } else {
                &&& key_line(line, o, indent) is Some
                &&& room > 0
                &&& below_value(lines, o, from + 1, indent + 2, (room - 1) as nat) is Some
                &&& ({
                    let (v, next) = below_value(lines, o, from + 1, indent + 2, (room - 1) as nat).unwrap();
                    &&& from < next <= lines.len()
                    &&& obj_block(lines, o, next, indent, room) is Some
                    &&& here.0 == seq![(key_line(line, o, indent).unwrap(), v)] + obj_block(lines, o, next, indent, room).unwrap().0
                    &&& here.1 == obj_block(lines, o, next, indent, room).unwrap().1
                })
            }
        }),
{
    reveal(obj_block);
}

/// One step of reading an array block: the line at `from` ends it or is an
/// element line.
#[verifier::rlimit(80)]
#[verifier::spinoff_prover]
proof fn lemma_arr_block_step(lines: Seq<Seq<char>>, o: ParseOptions, from: int, indent: int, room: nat)
    requires
        arr_block(lines, o, from, indent, room) is Some,
        0 <= from,
    ensures
        from >= lines.len() ==> arr_block(lines, o, from, indent, room) == Some((Seq::<crate::value::Json>::empty(), from)),
        from < lines.len() && comment_line(lines[from]) ==> skip_comments(lines, from) is Some
            && from < skip_comments(lines, from).unwrap()
            && arr_block(lines, o, from, indent, room) == arr_block(lines, o, skip_comments(lines, from).unwrap(), indent, room),
        from < lines.len() && !comment_line(lines[from]) ==> ({
            let line = lines[from];
            let here = arr_block(lines, o, from, indent, room).unwrap();
            if ends_at(line, indent) {
                plain_end(line) && here == (Seq::<crate::value::Json>::empty(), from)
            } else if element_line(line, o, indent) is Some {
                &&& unfolded(lines, from + 1)
                &&& arr_block(lines, o, from + 1, indent, room) is Some
                &&& here.0 == element_line(line, o, indent).unwrap() + arr_block(lines, o, from + 1, indent, room).unwrap().0
                &&& here.1 == arr_block(lines, o, from + 1, indent, room).unwrap().1
            } else {
                let first = open_line(line, o, indent).unwrap();
                &&& open_line(line, o, indent) is Some
                &&& room > 0
                &&& unfolded(lines, from + 1)
                &&& obj_block(lines, o, from + 1, indent + 2, (room - 1) as nat) is Some
                &&& ({
                    let (more, next) = obj_block(lines, o, from + 1, indent + 2, (room - 1) as nat).unwrap();
                    &&& from < next <= lines.len()
                    &&& arr_block(lines, o, next, indent, room) is Some
                    &&& here.0 == seq![crate::value::Json::Object(first + more)] + arr_block(lines, o, next, indent, room).unwrap().0
                    &&& here.1 == arr_block(lines, o, next, indent, room).unwrap().1
                })
            }
        }),
{
    reveal(arr_block);
}

/// The first element of a packed array line opens it with no structural
/// character, and when a space opens it, what follows is text.
proof fn lemma_packed_head(t: Seq<char>, o: ParseOptions)
    requires
        packed_item(t, o) is Some,
    ensures
        t.len() >= 1,
        t[0] != '|' && t[0] != '/' && t[0] != '[' && t[0] != '{',
        !crate::lex::minimal_json_candidate(t),
        !crate::lex::marker_chain_start(t),
        t[0] == ' ' ==> t.len() >= 2 && t[1] != ' ' && t[1] != '\t' && t[1] != '/',
        t[0] == '"' ==> crate::lex::json_string_prefix(t) is Some,
        !crate::text::all_spaces(t),
        packed_item(t, o).unwrap().2 == (t[0] == ' ' || t[0] == '_'),
{
    crate::options::lemma_solidus_is_foreslash_like(o);
    if t.len() >= 1 && (t[0] == ' ' || t[0] == '_') {
        let end = crate::lex::bare_run_end(t);
        let s = t.subrange(1, end);
        assert(s[0] == t[1]);
        assert(s[0] != '\t') by {
            if s[0] == '\t' {
                assert(s.contains('\t'));
            }
        }
        assert(!crate::text::all_spaces(t)) by {
            assert(t[1] != ' ');
        }
    } else if t.len() >= 1 && t[0] == '"' {
    } else if crate::text::is_prefix(seq!['t', 'r', 'u', 'e'], t) {
        assert(t.subrange(0, 4)[0] == t[0]);
    } else if crate::text::is_prefix(seq!['f', 'a', 'l', 's', 'e'], t) {
        assert(t.subrange(0, 5)[0] == t[0]);
    } else if crate::text::is_prefix(seq!['n', 'u', 'l', 'l'], t) {
        assert(t.subrange(0, 4)[0] == t[0]);
    }
}

/// An element line at an even indent reads as indented to that indent, opened
/// by what opens its bare string if it is one, and is neither a closer, a fold
/// continuation, a table row, a marker chain nor an entry.
proof fn lemma_element_line(line: Seq<char>, o: ParseOptions, k: int)
    requires
        element_line(line, o, k) is Some,
        k % 2 == 0,
        line.len() <= usize::MAX,
    ensures
        ({
            let e = line.subrange(k, line.len() as int);
            let ls = crate::text::leading_spaces(line) as int;
            &&& e.len() >= 1
            &&& e[0] != '|' && e[0] != '/'
            &&& !crate::lex::marker_chain_start(e)
            &&& entry_key(e, o) is None
            &&& (e[0] == '"' ==> crate::lex::json_string_prefix(e) is Some)
            &&& (crate::lex::minimal_json_candidate(e) ==> lone_scalar(e, o) is Some
                && element_line(line, o, k) == Some(seq![lone_scalar(e, o).unwrap()]))
            &&& (!crate::lex::minimal_json_candidate(e) ==> packed_items(e, o) == element_line(line, o, k))
            &&& value_line(line)
            &&& ls == if e[0] == ' ' { k + 1 } else { k }
            &&& crate::lex::leading_of(line) == Ok::<Leading, nat>(Leading {
                indent: k as usize,
                opener: if e[0] == ' ' || e[0] == '_' { Opener::BareString } else { Opener::Nothing },
            })
            &&& line.subrange(ls, line.len() as int) != seq!['/', '>']
            &&& !crate::text::is_prefix(seq!['/', ' '], line.subrange(ls, line.len() as int))
        }),
{
    let e = line.subrange(k, line.len() as int);
    assert forall|i: int| 0 <= i < k implies line[i] == ' ' by {
        assert(line.subrange(0, k)[i] == line[i]);
    }
    if !crate::lex::minimal_json_candidate(e) {
        let bare = e.len() > 0 && (e[0] == ' ' || e[0] == '_');
        assert(packed_item(e, o) is Some);
        lemma_packed_head(e, o);
    }
    assert(e.len() >= 1);
    assert(e[0] == line[k]);
    assert(seq!['/', '>'][0] == '/');
    assert(seq!['/', ' '][0] == '/');
    if e[0] == ' ' {
        assert(e[1] == line[k + 1]);
        crate::text::lemma_leading_spaces_unique(line, (k + 1) as nat);
        let rest = line.subrange(k + 1, line.len() as int);
        assert(rest[0] == e[1]);
    } else {
        crate::text::lemma_leading_spaces_unique(line, k as nat);
        let rest = line.subrange(k, line.len() as int);
        assert(rest =~= e);
    }
}

/// A line opening an array with `[ { ` at an even indent reads as indented
/// to that indent with no opener, and is a marker chain.
proof fn lemma_array_open_line(line: Seq<char>, o: ParseOptions, k: int)
    requires
        array_open_line(line, o, k) is Some,
        k % 2 == 0,
    ensures
        ({
            let e = line.subrange(k, line.len() as int);
            &&& e.len() > 4 && e[0] == '[' && e[1] == ' ' && e[2] == '{' && e[3] == ' '
            &&& crate::lex::marker_chain_start(e)
            &&& crate::text::leading_spaces(line) == k
            &&& crate::lex::leading_of(line) == Ok::<Leading, nat>(Leading { indent: k as usize, opener: Opener::Nothing })
            &&& value_line(line)
            &&& e != seq!['/', '>']
            &&& !crate::text::is_prefix(seq!['/', ' '], e)
            &&& k + 5 <= line.len()
            &&& !item_line(line, o, k + 2)
            &&& element_line(line, o, k + 2) is None
        }),
{
    let e = line.subrange(k, line.len() as int);
    assert forall|i: int| 0 <= i < k implies line[i] == ' ' by {
        assert(line.subrange(0, k)[i] == line[i]);
    }
    assert(e[0] == line[k]);
    crate::text::lemma_leading_spaces_unique(line, k as nat);
    assert(seq!['/', '>'][0] == '/');
    assert(crate::text::is_prefix(seq!['/', ' '], e) ==> e.subrange(0, 2)[0] == e[0]);
    assert(!crate::text::all_spaces(line.subrange(0, k + 2))) by {
        assert(line.subrange(0, k + 2)[k] == line[k]);
    }
}

/// A line opening an object with `{ ` at an even indent reads as indented
/// to that indent with no opener, and is a marker chain.
proof fn lemma_open_line(line: Seq<char>, o: ParseOptions, k: int)
    requires
        open_line(line, o, k) is Some,
        k % 2 == 0,
    ensures
        ({
            let e = line.subrange(k, line.len() as int);
            &&& e.len() > 2 && e[0] == '{' && e[1] == ' '
            &&& crate::lex::marker_chain_start(e)
            &&& crate::text::leading_spaces(line) == k
            &&& crate::lex::leading_of(line) == Ok::<Leading, nat>(Leading { indent: k as usize, opener: Opener::Nothing })
            &&& value_line(line)
            &&& e != seq!['/', '>']
            &&& k + 3 <= line.len()
        }),
{
    let e = line.subrange(k, line.len() as int);
    assert forall|i: int| 0 <= i < k implies line[i] == ' ' by {
        assert(line.subrange(0, k)[i] == line[i]);
    }
    assert(e[0] == line[k]);
    crate::text::lemma_leading_spaces_unique(line, k as nat);
    assert(seq!['/', '>'][0] == '/');
}

/// A line holding a lone scalar at the starting indent is a value line, is
/// no marker chain, and reads as indented to the starting indent, opened by
/// nothing or (for a bare string) by its opener.
proof fn lemma_lone_line(line: Seq<char>, o: ParseOptions)
    requires
        lone_line(line, o) is Some,
    ensures
        ({
            let k = o.start_indent_spec() as int;
            let t = line.subrange(k, line.len() as int);
            &&& t.len() >= 1
            &&& value_line(line)
            &&& !crate::lex::marker_chain_start(t)
            &&& crate::lex::leading_of(line) == Ok::<Leading, nat>(Leading {
                indent: k as usize,
                opener: if t[0] == ' ' || t[0] == '_' { Opener::BareString } else { Opener::Nothing },
            })
        }),
{
    let k = o.start_indent_spec() as int;
    let t = line.subrange(k, line.len() as int);
    crate::options::lemma_solidus_is_foreslash_like(o);
    assert(crate::jsonlit::digit_run(t, 0) >= 1 ==> crate::jsonlit::is_digit(t[0]));
    assert forall|i: int| 0 <= i < k implies line[i] == ' ' by {
        assert(line.subrange(0, k)[i] == line[i]);
    }
    assert(t.len() >= 1);
    assert(t[0] == line[k]);
    if t[0] == ' ' {
        let s = t.subrange(1, t.len() as int);
        assert(s[0] == line[k + 1]);
        assert(s[0] != '\t') by {
            if s[0] == '\t' {
                assert(s.contains('\t'));
            }
        }
        assert(s[0] != '/');
        crate::text::lemma_leading_spaces_unique(line, (k + 1) as nat);
        let rest = line.subrange(k + 1, line.len() as int);
        assert(rest =~= s);
        assert(rest[0] != '/');
    } else {
        crate::text::lemma_leading_spaces_unique(line, k as nat);
        let rest = line.subrange(k, line.len() as int);
        assert(rest =~= t);
    }
}

/// A line that `e` quotes is the line of `body` it names.
pub open spec fn quotes_its_line(e: ParseError, body: Seq<char>) -> bool {
    e.source_spec() matches Some(t) ==> e.line_spec() <= crate::lex::lines_of(body).len()
        && t == crate::lex::lines_of(body)[e.line_spec() - 1]
}

/// How a forbidden character is refused: by its code point and its name.
pub open spec fn forbidden_text(ch: char) -> Seq<char> {
    "forbidden character: U+"@ + crate::text::hex4(ch as u32 as nat) + ", "@ + crate::lex::forbidden_name_of(ch)
}

/// How an opening byte order mark is refused.
pub open spec fn bom_refusal() -> Seq<char> {
    "this input opens with a byte order mark (U+FEFF), which TJSON has no place for. It is invisible, so the file looks identical to one that loads -- save it as UTF-8 without a BOM, which most editors offer as an encoding choice."@
}

/// How an empty input is refused.
pub open spec fn empty_refusal() -> Seq<char> {
    "empty input: a TJSON document must contain a value"@
}

/// `r` refuses the first forbidden character of `body`, naming it and giving
/// its line and column (both 1-based).
pub open spec fn names_first_forbidden<T>(r: Result<T, ParseError>, body: Seq<char>) -> bool {
    exists|i: int| #![trigger crate::lex::first_forbidden_at(body, i)]
        crate::lex::first_forbidden_at(body, i) && match r {
            Err(e) => e.message_spec() == forbidden_text(body[i])
                && e.line_spec() == crate::lex::newlines(body.subrange(0, i)) + 1
                && e.column_spec() == i - crate::lex::line_start(body, i) + 1,
            Ok(_) => false,
        }
}

fn forbidden_message(ch: char) -> (r: String)
    ensures
        r@ == forbidden_text(ch),
{
    let mut m = lit("forbidden character: U+");
    let hex = crate::text::hex4_chars(ch as u32);
    push_str(&mut m, hex.as_slice());
    append_lit(&mut m, ", ");
    append_lit(&mut m, crate::lex::forbidden_name(ch));
    m
}

fn bom_message() -> (r: String)
    ensures
        r@ == bom_refusal(),
{
    lit("this input opens with a byte order mark (U+FEFF), which TJSON has no place for. It is invisible, so the file looks identical to one that loads -- save it as UTF-8 without a BOM, which most editors offer as an encoding choice.")
}

fn empty_message_text() -> (r: String)
    ensures
        r@ == empty_refusal(),
{
    lit("empty input: a TJSON document must contain a value")
}

/// A character that an input may hold and still be empty.
pub open spec fn blank_char(ch: char) -> bool {
    ch == ' ' || ch == '\t' || ch == '\n' || ch == '\r'
}

/// The refusal of an input that holds nothing but comments.
pub open spec fn comments_only_refusal() -> Seq<char> {
    "empty input: a TJSON document must contain a value, and this one has only comments"@
}

fn empty_message(input: &[char]) -> (r: String)
    ensures
        r@ == if forall|j: int| 0 <= j < input@.len() ==> blank_char(#[trigger] input@[j]) {
            empty_refusal()
        } else {
            comments_only_refusal()
        },
{
    let mut i: usize = 0;
    while i < input.len()
        invariant
            i <= input.len(),
            forall|j: int| 0 <= j < i ==> blank_char(#[trigger] input@[j]),
        decreases input.len() - i,
    {
        let ch = input[i];
        if !(ch == ' ' || ch == '\t' || ch == '\n' || ch == '\r') {
            return lit("empty input: a TJSON document must contain a value, and this one has only comments");
        }
        i += 1;
    }
    lit("empty input: a TJSON document must contain a value")
}

/// What `parse_document` promises of reading `input` with `options`.
pub open spec fn document_read(input: Seq<char>, options: ParseOptions, r: Result<Document, ParseError>) -> bool {
    &&& (r matches Err(e) ==> e.located() && quotes_its_line(e, body_of(input, options)))
    &&& (input.len() > 0 && input[0] == '\u{FEFF}' && options.byte_order_mark_spec() == ByteOrderMark::Reject
            ==> (r matches Err(e) && e.message_spec() == bom_refusal() && e.line_spec() == 1 && e.column_spec() == 1))
    &&& ((exists|i: int| crate::lex::forbidden_at(body_of(input, options), i)) ==> r is Err)
    &&& (!(input.len() > 0 && input[0] == '\u{FEFF}' && options.byte_order_mark_spec() == ByteOrderMark::Reject)
            && (exists|i: int| crate::lex::forbidden_at(body_of(input, options), i))
            ==> names_first_forbidden(r, body_of(input, options)))
    &&& (input.len() == 0 ==> (r matches Err(e) && e.message_spec() == empty_refusal() && e.line_spec() == 1 && e.column_spec() == 1))
    &&& ((forall|i: int| !crate::lex::forbidden_at(body_of(input, options), i))
            && crate::lex::lines_of(body_of(input, options)).len() == 1
            && lone_line(crate::lex::lines_of(body_of(input, options))[0], options) is Some
            ==> (r matches Ok(d) && lone_line(crate::lex::lines_of(body_of(input, options))[0], options) == Some(d.data())))
    &&& ((forall|i: int| !crate::lex::forbidden_at(body_of(input, options), i))
            && options.missing_indent_marker_spec() != MissingIndentMarker::RequireForced
            && nested_value(crate::lex::lines_of(body_of(input, options)), options) is Some
            ==> (r matches Ok(d) && nested_value(crate::lex::lines_of(body_of(input, options)), options) == Some(d.data())))
    &&& ((forall|i: int| !crate::lex::forbidden_at(body_of(input, options), i))
            && crate::lex::lines_of(body_of(input, options)).len() >= 2
            && lone_line(crate::lex::lines_of(body_of(input, options))[0], options) is Some
            && value_line(crate::lex::lines_of(body_of(input, options))[1])
            && !crate::text::is_prefix(seq!['/', ' '], crate::lex::lines_of(body_of(input, options))[1].subrange(
                crate::text::leading_spaces(crate::lex::lines_of(body_of(input, options))[1]) as int,
                crate::lex::lines_of(body_of(input, options))[1].len() as int))
            ==> (r matches Err(e) && e.line_spec() == 2
                && e.column_spec() == crate::text::leading_spaces(crate::lex::lines_of(body_of(input, options))[1]) + 1
                && (crate::lex::lines_of(body_of(input, options))[1][
                    crate::text::leading_spaces(crate::lex::lines_of(body_of(input, options))[1]) as int] != '/'
                    ==> e.message_spec() == leftover_refusal())))
    &&& ((forall|i: int| !crate::lex::forbidden_at(body_of(input, options), i)) && input.len() > 0
            && !(input[0] == '\u{FEFF}' && options.byte_order_mark_spec() == ByteOrderMark::Reject)
            && comment_lines_end(crate::lex::lines_of(body_of(input, options)), 0, 0)
                == Some(crate::lex::lines_of(body_of(input, options)).len() as int)
            ==> (r matches Err(e) && e.line_spec() == 1 && e.column_spec() == 1
                && e.message_spec() == if forall|j: int| 0 <= j < body_of(input, options).len()
                    ==> blank_char(#[trigger] body_of(input, options)[j]) {
                    empty_refusal()
                } else {
                    comments_only_refusal()
                }))
    &&& ((forall|i: int| !crate::lex::forbidden_at(body_of(input, options), i))
            && !(input.len() > 0 && input[0] == '\u{FEFF}' && options.byte_order_mark_spec() == ByteOrderMark::Reject)
            && entry_line_refused(crate::lex::lines_of(body_of(input, options)), options, 0, options.start_indent_spec() + 2)
            ==> r is Err)
    &&& ((forall|i: int| !crate::lex::forbidden_at(body_of(input, options), i))
            && !(input.len() > 0 && input[0] == '\u{FEFF}' && options.byte_order_mark_spec() == ByteOrderMark::Reject)
            && comment_lines_end(crate::lex::lines_of(body_of(input, options)), 0, 0) is Some && ({
                let ls = crate::lex::lines_of(body_of(input, options));
                let e = comment_lines_end(ls, 0, 0).unwrap();
                e + 1 == ls.len() && lone_line(ls[e], options) is Some
                    && !crate::text::is_prefix(seq!['/', ' '], after_spaces(ls[e]))
            })
            ==> ({
                let ls = crate::lex::lines_of(body_of(input, options));
                let e = comment_lines_end(ls, 0, 0).unwrap();
                r matches Ok(d) && lone_line(ls[e], options) == Some(d.data())
                    && ends_with_line_comments(d.root_spec().comments_spec(), ls, e, options.start_indent_spec() as int)
            }))
    &&& ((forall|i: int| !crate::lex::forbidden_at(body_of(input, options), i))
            && !(input.len() > 0 && input[0] == '\u{FEFF}' && options.byte_order_mark_spec() == ByteOrderMark::Reject)
            && skip_comments(crate::lex::lines_of(body_of(input, options)), 0) is Some
            && skip_comments(crate::lex::lines_of(body_of(input, options)), 0).unwrap()
                < crate::lex::lines_of(body_of(input, options)).len()
            ==> (r matches Ok(d) ==> ends_with_line_comments(d.root_spec().comments_spec(),
                crate::lex::lines_of(body_of(input, options)),
                skip_comments(crate::lex::lines_of(body_of(input, options)), 0).unwrap(), options.start_indent_spec() as int)))
}

/// Read a TJSON document with the reading `options` describes.
///
/// Refuses a document holding a forbidden character anywhere but in its line
/// breaks, an opening byte order mark unless the reading discards it, and an
/// empty input. Every refusal names a line and a column counted from 1, and
/// the source line it shows, if any, is the line it names. A document that is
/// one line holding a lone scalar at the starting indent reads as that scalar.
/// One that is an object one level in -- lines of entries (packed or not)
/// with lone scalars, keys whose array of scalars or ``` or `` multiline
/// string opens on their own line, and keys alone whose value below is such
/// an object, a pipe table, or an array whose lines hold scalars or open
/// objects with `{ ` (its first line opening it with `[ { ` at the key's
/// indent, when that is an object) -- or that is such an array or table,
/// reads as that value, entries, elements and rows in the order written
/// (unless the reading requires a marker on every container).
///
/// Runs of comment lines above the value, between the entries or elements
/// of its objects and arrays, and after it change nothing of its data;
/// those above the value stay with it, in order. A line left over
/// after a lone value is refused at that line. An input of comments alone is
/// refused as empty, and says so. A first entry whose value is a misspelt
/// literal, no JSON number, a scalar followed by spaces that carry nothing
/// or by a single space before more, or an array line that mixes its
/// packings is refused.
#[verifier::rlimit(100)]
#[verifier::spinoff_prover]
pub fn parse_document(input: &str, options: ParseOptions) -> (r: Result<Document, ParseError>)
    ensures
        document_read(input@, options, r),
{
    let all = crate::text::to_chars(input);
    if all.len() == 0 {
        return Err(ParseError::new(1, 1, empty_message_text(), None));
    }
    let chars = if all[0] == '\u{FEFF}' {
        match options.byte_order_mark_policy() {
            ByteOrderMark::Reject => {
                proof { assert(crate::lex::forbidden_at(body_of(input@, options), 0)); }
                return Err(ParseError::new(1, 1, bom_message(), None));
            },
            ByteOrderMark::Discard => {
                let rest = from(all.as_slice(), 1);
                assert(rest@ =~= all@.drop_first());
                rest
            },
        }
    } else {
        all
    };
    assert(chars@ == body_of(input@, options));
    let lines = match crate::lex::scan_lines(chars.as_slice()) {
        Ok(l) => l,
        Err(f) => {
            return Err(ParseError::new(f.line.saturating_add(1), f.column.saturating_add(1), forbidden_message(f.ch), None));
        },
    };
    let n_lines = lines.len();
    let start = options.start_indent_value();
    let src = Src { lines, opts: options, start };
    proof {
        assert(src_text(&src) =~= crate::lex::lines_of(body_of(input@, options)));
        assert forall|k: int| 0 <= k < src.lines@.len() implies #[trigger] src.lines@[k]@.len() <= usize::MAX by {
            assert(src.lines@[k]@.len() <= chars@.len());
        }
        lemma_comment_run_lines(&src, crate::lex::lines_of(body_of(input@, options)), 0, 0);
    }
    read_document(&src, chars.as_slice())
}

/// Read the document that `src` holds, from its first line; `chars` is the
/// text the lines came from.
#[verifier::rlimit(100)]
#[verifier::spinoff_prover]
fn read_document(src: &Src, chars: &[char]) -> (r: Result<Document, ParseError>)
    requires
        1 <= src.lines@.len() <= usize::MAX,
        src.start == src.opts.start_indent_spec(),
        lines_fit(src),
    ensures
        err_located(src, r),
        src.lines@.len() == 1 && lone_line(src.lines@[0]@, src.opts) is Some
            ==> (r matches Ok(d) && lone_line(src.lines@[0]@, src.opts) == Some(d.data())),
        src.opts.missing_indent_marker_spec() != MissingIndentMarker::RequireForced
            && nested_value(src_text(src), src.opts) is Some
            ==> (r matches Ok(d) && nested_value(src_text(src), src.opts) == Some(d.data())),
        src.lines@.len() >= 2 && lone_line(src.lines@[0]@, src.opts) is Some && value_line(src.lines@[1]@)
            && no_fold_after(src, 0)
            ==> (r matches Err(e) && e.line_spec() == 2
                && e.column_spec() == crate::text::leading_spaces(src.lines@[1]@) + 1
                && (src.lines@[1]@[crate::text::leading_spaces(src.lines@[1]@) as int] != '/' ==> e.message_spec() == leftover_refusal())),
        entry_line_refused(src_text(src), src.opts, 0, src.start + 2) ==> r is Err,
        comment_run_end(src, 0, 0) is Some && ({
            let e = comment_run_end(src, 0, 0).unwrap();
            e + 1 == src.lines@.len() && lone_line(src.lines@[e]@, src.opts) is Some
                && !crate::text::is_prefix(seq!['/', ' '], after_spaces(src.lines@[e]@))
        }) ==> ({
            let e = comment_run_end(src, 0, 0).unwrap();
            r matches Ok(d) && lone_line(src.lines@[e]@, src.opts) == Some(d.data())
                && ends_with_line_comments(d.root_spec().comments_spec(), src_text(src), e, src.start as int)
        }),
        comment_run_end(src, 0, 0) is Some && ({
            let e = comment_run_end(src, 0, 0).unwrap();
            e < src.lines@.len() && value_line(src.lines@[e]@)
                && !crate::text::is_prefix(seq!['/', ' '], after_spaces(src.lines@[e]@))
        }) ==> (r matches Ok(d) ==> ends_with_line_comments(d.root_spec().comments_spec(), src_text(src),
            comment_run_end(src, 0, 0).unwrap(), src.start as int)),
        comment_run_end(src, 0, 0) == Some(src.lines@.len() as int)
            ==> (r matches Err(e) && e.line_spec() == 1 && e.column_spec() == 1
                && e.message_spec() == if forall|j: int| 0 <= j < chars@.len() ==> blank_char(#[trigger] chars@[j]) {
                    empty_refusal()
                } else {
                    comments_only_refusal()
                }),
{
    let mut c = Cur { line: 0, depth: 0, frames: Vec::new(), pending: Vec::new() };
    let ghost options = src.opts;
    let start = src.start;
    let ghost lone = src.lines@.len() == 1 && lone_line(src.lines@[0]@, options) is Some;
    let ghost nested = options.missing_indent_marker_spec() != MissingIndentMarker::RequireForced
        && nested_value(src_text(src), options) is Some;
    proof {
        lemma_comment_run_end(src, 0, 0);
        if comment_run_end(src, 0, 0) is Some {
            let e = comment_run_end(src, 0, 0).unwrap();
            if e < src.lines@.len() && lone_line(src.lines@[e]@, src.opts) is Some {
                lemma_lone_line(src.lines@[e]@, src.opts);
            }
        }
        if entry_line_at(src_text(src), src.opts, 0, src.start + 2) {
            assert(src_text(src)[0] == src.lines@[0]@);
        }
        if lone || lone_line(src.lines@[0]@, options) is Some {
            lemma_lone_line(src.lines@[0]@, options);
        }
        if nested {
            lemma_comment_run_lines(src, src_text(src), 0, 0);
            let s0 = skip_comments(src_text(src), 0).unwrap();
            assert(src_text(src)[s0] == src.lines@[s0]@);
            if item_line(src.lines@[s0]@, options, start + 2) {
                lemma_item_line(src.lines@[s0]@, options, start + 2);
            } else if element_line(src.lines@[s0]@, options, start + 2) is Some {
                lemma_element_line(src.lines@[s0]@, options, start + 2);
            } else if array_open_line(src.lines@[s0]@, options, start as int) is Some {
                lemma_array_open_line(src.lines@[s0]@, options, start as int);
            } else {
                lemma_pipe_line(src.lines@[s0]@, options, start + 2);
            }
        }
    }
    match skip_ignorable(src, &mut c) {
        Err(e) => { return Err(e); },
        Ok(()) => {},
    }
    if c.line >= src.lines.len() {
        return Err(ParseError::new(1, 1, empty_message(chars), None));
    }
    let ghost left = src.lines@.len() >= 2 && lone_line(src.lines@[0]@, src.opts) is Some && value_line(src.lines@[1]@)
        && no_fold_after(src, 0);
    assert(left ==> c.line == 0);
    let ghost cl = comment_run_end(src, 0, 0) is Some && ({
        let e = comment_run_end(src, 0, 0).unwrap();
        e + 1 == src.lines@.len() && lone_line(src.lines@[e]@, src.opts) is Some
            && !crate::text::is_prefix(seq!['/', ' '], after_spaces(src.lines@[e]@))
    });
    let ghost ce = comment_run_end(src, 0, 0).unwrap();
    assert(cl ==> c.line == ce && c.pending@.len() == ce && c.frames@.len() == 0);
    let ghost hc = comment_run_end(src, 0, 0) is Some && ({
        let e = comment_run_end(src, 0, 0).unwrap();
        e < src.lines@.len() && value_line(src.lines@[e]@)
            && !crate::text::is_prefix(seq!['/', ' '], after_spaces(src.lines@[e]@))
    });
    assert(hc ==> c.line == ce && c.pending@.len() == ce && c.frames@.len() == 0);
    let ghost pend = c.pending@;
    assert(hc ==> forall|i: int| 0 <= i < ce ==> seen_comment(src, i, #[trigger] pend[i])) by {
        if hc {
            assert forall|i: int| 0 <= i < ce implies seen_comment(src, i, #[trigger] pend[i]) by {
                assert(pend[0 + i] == pend[i]);
            }
        }
    }
    let root_pending = take_pending(&mut c);
    let mut value = match parse_root_value(src, &mut c) {
        Ok(v) => v,
        Err(e) => { return Err(e); },
    };
    assert(left ==> c.line == 1 && c.frames@.len() == 0);
    assert(cl ==> c.line == src.lines@.len() && lone_line(src.lines@[ce]@, src.opts) == Some(value.data()));
    let ghost before_comments = value.comments_spec();
    if root_pending.len() > 0 {
        attach_node_comments(&mut value, root_pending, start);
    }
    proof {
        if hc {
            assert forall|i: int| 0 <= i < ce implies {
                let l = src_text(src)[i];
                let ls = crate::text::leading_spaces(l);
                &&& (#[trigger] value.comments_spec()[value.comments_spec().len() - ce + i]).text_spec()
                    == l.subrange(ls as int, l.len() as int)
                &&& value.comments_spec()[value.comments_spec().len() - ce + i].placement_spec()
                    == crate::document::classify_placement(ls, start as nat)
            } by {
                assert(src_text(src)[i] == src.lines@[i]@);
                assert(seen_comment(src, i, pend[i]));
                assert(value.comments_spec().len() - ce + i == before_comments.len() + i);
            }
            assert(ends_with_line_comments(value.comments_spec(), src_text(src), ce, start as int));
        }
    }
    match skip_ignorable(src, &mut c) {
        Err(e) => { return Err(e); },
        Ok(()) => {},
    }
    assert(left ==> c.line == 1);
    let trailing = take_pending(&mut c);
    if c.line < src.lines.len() {
        let line = src.lines[c.line].as_slice();
        let rest = from(line, count_leading_spaces(line));
        proof {
            reveal_strlit("/>");
            reveal_strlit("/ ");
            assert("/>"@ =~= seq!['/', '>']);
            assert("/ "@ =~= seq!['/', ' ']);
            crate::text::lemma_leading_spaces_bound(line@);
            if left {
                assert(c.line == 1);
                if crate::text::leading_spaces(line@) == line@.len() {
                    assert(crate::text::all_spaces(line@));
                }
                assert(rest@[0] == line@[crate::text::leading_spaces(line@) as int]);
            }
        }
        let m = if starts_with_str(rest.as_slice(), "/>") {
            lit("unexpected /> indent offset glyph: no previous matching /< indent offset glyph")
        } else if starts_with_str(rest.as_slice(), "/ ") {
            lit("unexpected fold marker: no open string to fold")
        } else {
            lit("unexpected trailing content: the document's value ended above this line, so nothing on it belongs to that value. A TJSON document holds exactly one value -- either this line's indent is wrong and it should sit under the value above, or it is a second value and needs a document of its own.")
        };
        return Err(error_current(src, &c, m));
    }
    let mut doc = Document::new(value);
    let ghost read = doc.data();
    let comments = Comment::classify_all(trailing, 0);
    let mut i: usize = 0;
    let ghost root_comments = doc.root_spec().comments_spec();
    while i < comments.len()
        invariant
            doc.data() == read,
            doc.root_spec().comments_spec() == root_comments,
        decreases comments.len() - i,
    {
        doc.push_trailing_comment(comments[i].clone());
        i += 1;
    }
    Ok(doc)
}

/// The last `e` comments of `cs` are those written on lines `0..e` of
/// `lines`, in order: each one's text from where it starts, placed as a
/// comment at its column is placed for a subject at `level`.
pub open spec fn ends_with_line_comments(cs: Seq<Comment>, lines: Seq<Seq<char>>, e: int, level: int) -> bool {
    &&& 0 <= e <= cs.len()
    &&& forall|i: int| 0 <= i < e ==> {
        let l = lines[i];
        let ls = crate::text::leading_spaces(l);
        &&& (#[trigger] cs[cs.len() - e + i]).text_spec() == l.subrange(ls as int, l.len() as int)
        &&& cs[cs.len() - e + i].placement_spec() == crate::document::classify_placement(ls, level as nat)
    }
}

/// The text of `l` after its leading spaces.
pub open spec fn after_spaces(l: Seq<char>) -> Seq<char> {
    l.subrange(crate::text::leading_spaces(l) as int, l.len() as int)
}

/// How a line left over after the document's value is refused.
pub open spec fn leftover_refusal() -> Seq<char> {
    "unexpected trailing content: the document's value ended above this line, so nothing on it belongs to that value. A TJSON document holds exactly one value -- either this line's indent is wrong and it should sit under the value above, or it is a second value and needs a document of its own."@
}

/// Where a run of comment lines from line `k` of `lines` ends, each no
/// further out than the one above it (`prev`): the first line that is no
/// comment, or `None` when a comment steps back out.
pub open spec fn comment_lines_end(lines: Seq<Seq<char>>, k: int, prev: int) -> Option<int>
    decreases lines.len() - k,
{
    if k < 0 || k >= lines.len() || !comment_line(lines[k]) {
        Some(k)
    } else if (crate::text::leading_spaces(lines[k]) as int) < prev {
        None
    } else {
        comment_lines_end(lines, k + 1, crate::text::leading_spaces(lines[k]) as int)
    }
}

proof fn lemma_comment_run_lines(src: &Src, lines: Seq<Seq<char>>, k: int, prev: int)
    requires
        src_text(src) == lines,
    ensures
        comment_run_end(src, k, prev) == comment_lines_end(lines, k, prev),
    decreases src.lines@.len() - k,
{
    if 0 <= k < src.lines@.len() {
        assert(src_text(src)[k] == src.lines@[k]@);
        if comment_line(lines[k]) && (crate::text::leading_spaces(lines[k]) as int) >= prev {
            lemma_comment_run_lines(src, lines, k + 1, crate::text::leading_spaces(lines[k]) as int);
        }
    }
}

/// Under the discarding policy an opening byte order mark changes nothing:
/// what reading `s` behind a mark promises is exactly what reading `s`
/// promises, for documents and for plain values alike.
pub proof fn law_discarded_mark_reads_as_without(s: Seq<char>, options: ParseOptions)
    requires
        s.len() > 0,
        s[0] != '\u{FEFF}',
        options.byte_order_mark_spec() == ByteOrderMark::Discard,
    ensures
        forall|r: Result<Document, ParseError>|
            #[trigger] document_read(seq!['\u{FEFF}'] + s, options, r) <==> document_read(s, options, r),
        forall|r: Result<Value, ParseError>|
            #[trigger] value_read(seq!['\u{FEFF}'] + s, options, r) <==> value_read(s, options, r),
{
    assert((seq!['\u{FEFF}'] + s).drop_first() =~= s);
    assert(body_of(seq!['\u{FEFF}'] + s, options) == s);
    assert(body_of(s, options) == s);
}

/// What `parse_value` promises of reading `input` with `options`.
pub open spec fn value_read(input: Seq<char>, options: ParseOptions, r: Result<Value, ParseError>) -> bool {
    &&& (r matches Err(e) ==> e.located() && quotes_its_line(e, body_of(input, options)))
    &&& (input.len() > 0 && input[0] == '\u{FEFF}' && options.byte_order_mark_spec() == ByteOrderMark::Reject
            ==> (r matches Err(e) && e.message_spec() == bom_refusal() && e.line_spec() == 1 && e.column_spec() == 1))
    &&& ((exists|i: int| crate::lex::forbidden_at(body_of(input, options), i)) ==> r is Err)
    &&& (!(input.len() > 0 && input[0] == '\u{FEFF}' && options.byte_order_mark_spec() == ByteOrderMark::Reject)
            && (exists|i: int| crate::lex::forbidden_at(body_of(input, options), i))
            ==> names_first_forbidden(r, body_of(input, options)))
    &&& (input.len() == 0 ==> (r matches Err(e) && e.message_spec() == empty_refusal() && e.line_spec() == 1 && e.column_spec() == 1))
    &&& ((forall|i: int| !crate::lex::forbidden_at(body_of(input, options), i))
            && crate::lex::lines_of(body_of(input, options)).len() == 1
            && lone_line(crate::lex::lines_of(body_of(input, options))[0], options) is Some
            ==> (r matches Ok(v) && lone_line(crate::lex::lines_of(body_of(input, options))[0], options) == Some(v.model())))
    &&& ((forall|i: int| !crate::lex::forbidden_at(body_of(input, options), i))
            && options.missing_indent_marker_spec() != MissingIndentMarker::RequireForced
            && nested_value(crate::lex::lines_of(body_of(input, options)), options) is Some
            ==> (r matches Ok(v) && nested_value(crate::lex::lines_of(body_of(input, options)), options) == Some(v.model())))
    &&& ((forall|i: int| !crate::lex::forbidden_at(body_of(input, options), i))
            && crate::lex::lines_of(body_of(input, options)).len() >= 2
            && lone_line(crate::lex::lines_of(body_of(input, options))[0], options) is Some
            && value_line(crate::lex::lines_of(body_of(input, options))[1])
            && !crate::text::is_prefix(seq!['/', ' '], crate::lex::lines_of(body_of(input, options))[1].subrange(
                crate::text::leading_spaces(crate::lex::lines_of(body_of(input, options))[1]) as int,
                crate::lex::lines_of(body_of(input, options))[1].len() as int))
            ==> (r matches Err(e) && e.line_spec() == 2
                && e.column_spec() == crate::text::leading_spaces(crate::lex::lines_of(body_of(input, options))[1]) + 1
                && (crate::lex::lines_of(body_of(input, options))[1][
                    crate::text::leading_spaces(crate::lex::lines_of(body_of(input, options))[1]) as int] != '/'
                    ==> e.message_spec() == leftover_refusal())))
    &&& ((forall|i: int| !crate::lex::forbidden_at(body_of(input, options), i)) && input.len() > 0
            && !(input[0] == '\u{FEFF}' && options.byte_order_mark_spec() == ByteOrderMark::Reject)
            && comment_lines_end(crate::lex::lines_of(body_of(input, options)), 0, 0)
                == Some(crate::lex::lines_of(body_of(input, options)).len() as int)
            ==> (r matches Err(e) && e.line_spec() == 1 && e.column_spec() == 1
                && e.message_spec() == if forall|j: int| 0 <= j < body_of(input, options).len()
                    ==> blank_char(#[trigger] body_of(input, options)[j]) {
                    empty_refusal()
                } else {
                    comments_only_refusal()
                }))
    &&& ((forall|i: int| !crate::lex::forbidden_at(body_of(input, options), i))
            && !(input.len() > 0 && input[0] == '\u{FEFF}' && options.byte_order_mark_spec() == ByteOrderMark::Reject)
            && entry_line_refused(crate::lex::lines_of(body_of(input, options)), options, 0, options.start_indent_spec() + 2)
            ==> r is Err)
    &&& ((forall|i: int| !crate::lex::forbidden_at(body_of(input, options), i))
            && !(input.len() > 0 && input[0] == '\u{FEFF}' && options.byte_order_mark_spec() == ByteOrderMark::Reject)
            && comment_lines_end(crate::lex::lines_of(body_of(input, options)), 0, 0) is Some && ({
                let ls = crate::lex::lines_of(body_of(input, options));
                let e = comment_lines_end(ls, 0, 0).unwrap();
                e + 1 == ls.len() && lone_line(ls[e], options) is Some
                    && !crate::text::is_prefix(seq!['/', ' '], after_spaces(ls[e]))
            })
            ==> ({
                let ls = crate::lex::lines_of(body_of(input, options));
                let e = comment_lines_end(ls, 0, 0).unwrap();
                r matches Ok(v) && lone_line(ls[e], options) == Some(v.model())
            }))
}

/// Read a TJSON document as plain data: `parse_document` with comments and
/// presentation facts left out.
pub fn parse_value(input: &str, options: ParseOptions) -> (r: Result<Value, ParseError>)
    ensures
        value_read(input@, options, r),
{
    match parse_document(input, options) {
        Ok(doc) => Ok(doc.to_value()),
        Err(e) => Err(e),
    }
}

impl std::str::FromStr for Document {
    type Err = ParseError;

    fn from_str(s: &str) -> (r: Result<Document, ParseError>)
        ensures
            exists|o: ParseOptions| o.is_spec_forms() && #[trigger] document_read(s@, o, r),
    {
        let o = ParseOptions::default();
        let r = parse_document(s, o);
        assert(document_read(s@, o, r));
        r
    }
}

impl std::str::FromStr for Value {
    type Err = ParseError;

    fn from_str(s: &str) -> (r: Result<Value, ParseError>)
        ensures
            exists|o: ParseOptions| o.is_spec_forms() && #[trigger] value_read(s@, o, r),
    {
        let o = ParseOptions::default();
        let r = parse_value(s, o);
        assert(value_read(s@, o, r));
        r
    }
}

} // verus!
