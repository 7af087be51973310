use tjson::document::{BareForm, Document, KeyForm, StringForm};
use tjson::error::ParseError;
use tjson::options::{
    ByteOrderMark, CommentPlacementError, MissingIndentMarker, MultilineMinimum, ParseOptions,
    TrailingSpaces,
};
use tjson::parse::{parse_document, parse_value};
use tjson::value::Value;


fn parse(input: &str, options: ParseOptions) -> Result<Value, ParseError> {
    parse_value(input, options)
}

/// The value stored at a top-level key, as a string.
fn key_str<'a>(value: &'a Value, key: &str) -> Option<&'a str> {
    let Value::Object(entries) = value else { return None };
    entries.iter().find(|entry| entry.key == key).and_then(|entry| match &entry.value {
        Value::String(text) => Some(text.as_str()),
        _ => None,
    })
}

#[test]
fn trailing_spaces_reject_by_default_and_discard_on_request() {
    // Every shape of non-data trailing space: after a scalar, after a bare
    // string, two of them (which would otherwise read as a separator with
    // nothing after it), and a line holding nothing else.
    for input in [
        "  a: 1 \n",
        "  a: 1  \n",
        "  a: b \n",
        "  a:\"q\" \n",
    ] {
        assert!(
            parse(input, ParseOptions::default()).is_err(),
            "{input:?} must be refused by the specification's reading"
        );
        assert!(
            parse(input, ParseOptions::default().trailing_spaces(TrailingSpaces::Discard))
                .is_ok(),
            "{input:?} must parse once trailing spaces are discarded"
        );
    }
}

#[test]
fn a_spaces_only_line_is_a_blank_line_once_the_spaces_are_discarded() {
    // Discarding trailing spaces does not rescue this: take the spaces away
    // and a blank line is left, and a blank line in the middle of a document
    // breaks a different rule. The option moves which rule is reported, not
    // whether the document loads.
    let input = "  a: 1\n   \n  b: 2\n";
    let strict = parse(input, ParseOptions::default()).unwrap_err().display();
    assert!(strict.contains("nothing but spaces"), "{strict:?}");

    let discarded =
        parse(input, ParseOptions::default().trailing_spaces(TrailingSpaces::Discard))
            .unwrap_err()
            .display();
    assert!(
        !discarded.contains("nothing but spaces"),
        "the spaces are no longer the complaint: {discarded:?}"
    );
}

#[test]
fn trailing_space_message_does_not_describe_a_packed_entry() {
    // A single trailing space used to be reported as a missing separator
    // between two entries on one line, which describes a line the author
    // did not write. Nothing follows, so nothing was being separated.
    let error = parse("  a: 1 \n", ParseOptions::default()).unwrap_err();
    let text = error.display();
    assert!(
        text.contains("ends with spaces"),
        "should name the trailing spaces: {text:?}"
    );
    assert!(
        !text.contains("between object entries"),
        "should not describe a separator that was never intended: {text:?}"
    );
}

#[test]
fn trailing_spaces_inside_a_multiline_body_stay_data() {
    // The spec's "where not meaningful" clause: inside a multiline string a
    // trailing space is content, so neither reading may touch it.
    let input = "  a: ``\n| x \n| y\n   ``\n";
    for policy in [TrailingSpaces::Reject, TrailingSpaces::Discard] {
        let value = parse(input, ParseOptions::default().trailing_spaces(policy))
            .unwrap_or_else(|e| panic!("multiline must parse under {policy:?}: {e:?}"));
        let text = key_str(&value, "a").expect("string value");
        assert!(
            text.contains("x "),
            "the space after x is data and must survive {policy:?}: {text:?}"
        );
    }
}

#[test]
fn byte_order_mark_rejected_by_default_and_discarded_on_request() {
    let input = "\u{FEFF}  a: 1\n";
    let error = parse(input, ParseOptions::default()).unwrap_err().display();
    assert!(
        error.contains("byte order mark") && error.contains("without a BOM"),
        "the error must name the mark and say how to remove it: {error:?}"
    );

    let value = parse(input, ParseOptions::default().byte_order_mark(ByteOrderMark::Discard))
        .expect("a leading mark is skipped on request");
    assert!(
        matches!(&value, Value::Object(entries) if entries.iter().any(|e| e.key == "a")),
        "the document past the mark parses normally"
    );
}

#[test]
fn u_feff_stays_forbidden_away_from_byte_zero() {
    // Only byte 0 is an encoding artifact. Anywhere else it is an invisible
    // character sitting in data, and no reading of the option reaches it.
    let input = "  a: b\u{FEFF}c\n";
    for policy in [ByteOrderMark::Reject, ByteOrderMark::Discard] {
        assert!(
            parse(input, ParseOptions::default().byte_order_mark(policy)).is_err(),
            "U+FEFF inside a value must stay forbidden under {policy:?}"
        );
    }
}

#[test]
fn too_many_spaces_before_a_value_shows_the_whole_ladder() {
    // The three rungs do not imply one another, and a reader who counted
    // wrong needs to see which one they meant. The old text described a
    // packed array followed by a key-value pair -- a different fault, which
    // has its own error.
    let error = parse("  a:    x\n", ParseOptions::default()).unwrap_err().display();
    for rung in ["`k: x`", "`k:  1, 2`", "`k:   x`"] {
        assert!(error.contains(rung), "the message must show {rung}: {error:?}");
    }
    assert!(
        !error.contains("BASIC TYPE"),
        "and must not explain a fault that is reported elsewhere: {error:?}"
    );
}

#[test]
fn a_missing_opening_space_is_named_as_such() {
    // `a:  x` is one space short, not malformed: two spaces opened a packed
    // array and its element still needs the space that opens a bare string.
    // "invalid value start" pointed at the text, where nothing is wrong,
    // instead of at the gap before it.
    let error = parse("  a:  x\n", ParseOptions::default()).unwrap_err().display();
    assert!(
        error.contains("opening quote"),
        "the message must say the space is the opening quote: {error:?}"
    );
    assert!(
        !error.contains("invalid value start"),
        "and must not fall back to the generic fault: {error:?}"
    );

    // A character that could not open a bare string either way keeps the
    // generic message -- the space is not the whole story there.
    let quoted = parse("  a:  \u{201C}x\n", ParseOptions::default()).unwrap_err().display();
    assert!(
        !quoted.contains("opening quote is"),
        "a quotelike start is a different fault: {quoted:?}"
    );
}

#[test]
fn a_literal_must_end_where_it_appears_to() {
    // `true`, `false` and `null` are matched by prefix, so `active:trued`
    // once read as the boolean plus a stray `d`. The `d` then surfaced as
    // "expected at least two spaces between object entries", pointing at
    // column 3 of a line whose fault was at its very end.
    let error = parse(
        "  name: Alice    age:30    active:trued\n",
        ParseOptions::default(),
    )
    .unwrap_err();
    assert!(
        error.display().contains("`true` is followed by `d`"),
        "must name the literal and what follows it: {error:?}"
    );
    assert!(
        !error.display().contains("between object entries"),
        "must not blame the separators, which are fine: {error:?}"
    );
    assert!(
        error.column() > 30,
        "must point at the `d` near the end, not the start of the line: {error:?}"
    );

    for input in ["  a:nullx\n", "  a:falsey\n"] {
        assert!(
            parse(input, ParseOptions::default()).is_err(),
            "{input:?} must be refused"
        );
    }

    // What legitimately follows a literal keeps working: end of line, the
    // two spaces separating packed entries, and a comma inside an array.
    for input in ["  a:true\n", "  a:true  b:1\n", "  a:  true, false\n"] {
        assert!(
            parse(input, ParseOptions::default()).is_ok(),
            "{input:?} must still parse"
        );
    }
}

#[test]
fn a_misindented_closer_names_both_columns() {
    // The glyph carries no indentation cue and the miss is usually one
    // space, so it cannot be seen on the page. Reporting it as a malformed
    // body line is true and useless -- the string was closed, just a column
    // off, and only naming where it went and where it belonged helps.
    for (input, found) in [
        ("  a: ``\n| x\n| y\n  ``\n", 3),
        ("  a: ``\n| x\n| y\n    ``\n", 5),
    ] {
        let error = parse(input, ParseOptions::default()).unwrap_err().display();
        assert!(
            error.contains(&format!("at column {found}")),
            "must say where the glyph is: {error:?}"
        );
        assert!(
            error.contains("belongs at column 4"),
            "must say where it belonged: {error:?}"
        );
        assert!(!error.contains("````"), "the glyph must not be re-quoted: {error:?}");
    }

    // The correctly indented closer is still accepted.
    assert!(parse("  a: ``\n| x\n| y\n   ``\n", ParseOptions::default()).is_ok());
}

#[test]
fn an_unterminated_multiline_points_at_the_line_that_tried_to_close_it() {
    // "reached end of file" described where the parser gave up, not what
    // went wrong, and sent the reader to the opener when the fault was on
    // the closer. Both ways of missing a closer are invisible on the page,
    // so each has to be named outright.
    let trailing = parse("  a: ```\nx\ny\n   ```   \n", ParseOptions::default())
        .unwrap_err();
    assert_eq!(trailing.line(), 4, "must blame the closer line, not the opener");
    assert!(
        trailing.display().contains("trailing spaces"),
        "must say what stopped it counting: {trailing:?}"
    );

    let misindented = parse("  a: ```\nx\ny\n ```\n", ParseOptions::default())
        .unwrap_err();
    assert_eq!(misindented.line(), 4);
    assert!(
        misindented.display().contains("at column 2, not column 4"),
        "must name both columns: {misindented:?}"
    );

    // With nothing resembling a closer anywhere, the opener is the right
    // place to point, and the message says where the glyph belonged.
    let absent = parse("  a: ```\nx\ny\n", ParseOptions::default()).unwrap_err();
    assert_eq!(absent.line(), 1);
    assert!(
        absent.display().contains("at column 4"),
        "must still say where the closer belonged: {absent:?}"
    );

    assert!(parse("  a: ```\nx\ny\n   ```\n", ParseOptions::default()).is_ok());
}

/// A run of comment lines may stay level or step in, never back out.
///
/// Where a comment sits is what says which thing it annotates, so a run that
/// steps outward annotates something enclosing what the line above it
/// annotated. Both cannot be kept with their subjects on a re-render without
/// emitting them in an order the author did not write, so the run is refused
/// rather than silently reordered.
///
/// Only lines that touch form a run: separate them with the value they
/// annotate and any indents are legal again.
#[test]
fn a_run_of_comments_may_not_step_back_out() {
    for legal in [
        "// a\n// b\n  k:1\n",              // level
        "// a\n  // b\n  k:1\n",            // stepping in
        "// a\n  // b\n    // c\n  k:1\n",  // stepping in twice
        "// a\n  k:1\n// b\n  j:2\n",       // not a run: content between them
    ] {
        parse(legal, ParseOptions::default())
            .unwrap_or_else(|e| panic!("{legal:?} is a legal run: {e:?}"));
    }

    for illegal in ["  // a\n// b\n  k:1\n", "    // a\n  // b\n  k:1\n"] {
        let error = parse(illegal, ParseOptions::default())
            .expect_err(&format!("{illegal:?} steps back out and must be refused"));
        assert!(
            error.message().contains("further out than the comment on the line above"),
            "{illegal:?} must be refused for stepping out, not for something else: {error:?}"
        );
    }
}

/// Every multiline flavour recognises a line that was trying to be its closer.
///
/// The three bodies each run their own loop, and only ``` used to say what was
/// wrong with a closer carrying a space after it. `` called it a body line
/// missing its marker and ` called it a content line at the wrong indent --
/// both true about where the line sits, both useless about what the writer
/// did, and the edit each one asks for leaves the string unterminated.
#[test]
fn every_multiline_flavour_names_a_closer_that_missed() {
    for (label, input) in [
        ("``", "  k: ``\n  | ab\n   `` \n"),
        ("`", "  k: `\n    ab\n   ` \n"),
        ("```", "  k: ```\n    ab\n   ``` \n"),
    ] {
        let error = parse(input, ParseOptions::default()).unwrap_err().display();
        assert!(
            error.contains("spaces after it"),
            "{label}: the fault is the spaces after the closer, and the message has to \
             say so: {error:?}"
        );
        assert!(
            !error.contains("must start with"),
            "{label}: this line is a closer, not a body line missing a marker -- that \
             advice does not close the string: {error:?}"
        );
    }
}

/// Trailing spaces mean the same thing however the value is spelled.
///
/// Each row is a document with spaces after its last value, paired with the
/// same document without them. The policy has to answer every spelling the
/// same way: refused by default, discarded on request, and once discarded the
/// value is exactly the one the clean document gives.
///
/// The parity is the point. The old test covered only a lone object value, so
/// nothing noticed that the element loop rejected trailing spaces under *both*
/// policies -- it never consulted the option at all -- while the entry loop
/// beside it honoured them.
///
/// Spaces that are data are the other half of the same rule and are pinned in
/// [`spaces_a_fold_joins_with_are_data`].
///
/// The parity claimed here is about **trailing spaces only**, and it stops
/// there deliberately. The spellings are not interchangeable in general -- a
/// bare key may not hold a `"` at all, so a law reading "the quoted form and
/// the bare form always agree" would demand an equivalence the format does
/// not have, and would fail on a difference that is the design rather than a
/// defect. Widen this only with a rule that survives that case.
#[test]
fn trailing_spaces_read_the_same_however_the_value_is_spelled() {
    for (dirty, clean) in [
        ("  k:90 \n", "  k:90\n"),
        ("  k:true \n", "  k:true\n"),
        ("  k:\"x\" \n", "  k:\"x\"\n"),
        ("  k: bare \n", "  k: bare\n"),
        ("  k:  1, 2 \n", "  k:  1, 2\n"),
        ("  k:   a   b \n", "  k:   a   b\n"),
    ] {
        assert!(
            parse(dirty, ParseOptions::default()).is_err(),
            "{dirty:?} must be refused while trailing spaces are errors"
        );
        let discarded =
            parse(dirty, ParseOptions::default().trailing_spaces(TrailingSpaces::Discard))
                .unwrap_or_else(|e| panic!("{dirty:?} must parse once discarded: {e:?}"));
        let expected = parse(clean, ParseOptions::default())
            .unwrap_or_else(|e| panic!("{clean:?} is supposed to be valid: {e:?}"));
        assert_eq!(discarded, expected, "{dirty:?} and {clean:?} must agree");
    }
}

/// The spaces a fold joins its halves with are data, under either policy.
///
/// The counterweight to [`trailing_spaces_read_the_same_however_the_value_is_spelled`]:
/// a space at the end of a folded line is not trailing whitespace, it is the
/// character between the two words, and a fold whose halves are both spaces
/// is a string of spaces. Discarding those would silently change the data
/// rather than refuse it, which is the one outcome worth pinning hardest.
#[test]
fn spaces_a_fold_joins_with_are_data() {
    for policy in [TrailingSpaces::Reject, TrailingSpaces::Discard] {
        let options = ParseOptions::default().trailing_spaces(policy);
        for (input, expected) in [
            ("  k: hello \n  / world\n", "hello world"),
            ("  k: hello\n  / world\n", "helloworld"),
            ("  k:\"hello \n  / world\"\n", "hello world"),
            ("  k:\"  \n  /   \"\n", "    "),
        ] {
            let value = parse(input, options.clone())
                .unwrap_or_else(|e| panic!("{input:?} under {policy:?}: {e:?}"));
            assert_eq!(
                key_str(&value, "k"),
                Some(expected),
                "{input:?} under {policy:?} must keep the spaces it folds with"
            );
        }
    }
}

/// The rewrite an error recommends has to be one that parses.
///
/// Each row is a document that fails, paired with the document its message
/// tells the writer to produce instead. A suggestion that merely trades this
/// error for the next one is worse than no suggestion, because the writer
/// spends the edit before finding out.
///
/// The space packed array is the case that caught it: its elements used to be
/// told to delete the opening space before a `"`, which is right in every
/// other context and here left a quoted element on a line that admits none.
/// The same line was separately told about commas it did not contain.
#[test]
fn the_rewrite_an_error_recommends_actually_parses() {
    for (broken, fixed) in [
        // "wants three spaces in front of it rather than two"
        ("  tags:   rust   wasm  extra\n", "  tags:   rust   wasm   extra\n"),
        // "give the array one element per line"
        ("  tags:   rust   \"quoted\"\n", "  tags:\n     rust\n    \"quoted\"\n"),
        // "delete that one space before the opening \"" -- still right here
        ("  tags:  1, 2,  \"quoted\"\n", "  tags:  1, 2, \"quoted\"\n"),
        ("  k: \"quoted\"\n", "  k:\"quoted\"\n"),
        // "the literals are lowercase, so write `true`"
        ("  v:TRUE\n", "  v:true\n"),
    ] {
        let error = parse(broken, ParseOptions::default())
            .expect_err(&format!("{broken:?} is supposed to be rejected"));
        assert!(
            parse(fixed, ParseOptions::default()).is_ok(),
            "the rewrite {fixed:?} does not parse, so the advice in this message \
             costs the writer an edit and leaves them stuck: {error:?}"
        );
    }
}

/// A table cell fault points at the cell, not at the row.
///
/// Written as "the caret lands between this cell's pipes" rather than as an
/// expected column, because the number is the thing most likely to be edited
/// to match a regression. Every cell error used to report column 1: the
/// splitter returned owned strings and dropped the offsets it had just
/// computed, so there was nothing to point with, and counting cells by eye in
/// a wide table is exactly the work an error is supposed to save.
#[test]
fn a_bad_table_cell_is_pointed_at_rather_than_its_row() {
    // Third column, so a caret at the row's start, at the first cell, or at
    // the last one are all distinguishable failures.
    let row = "    |1|2|,bad|";
    let input = format!("  t:\n    |x|y|z|\n{row}\n");
    let error = parse(&input, ParseOptions::default()).unwrap_err();

    let opens = row.find(",bad").expect("the offending cell is in the row");
    let closes = opens + ",bad".len();
    // `column()` is 1-based and counted in characters; this row is ASCII.
    let column = error.column() - 1;
    assert!(
        (opens..closes).contains(&column),
        "caret at column {column} is outside the offending cell (bytes {opens}..{closes}): {error:?}"
    );
}

#[test]
fn a_scalar_with_one_space_too_many_is_named_as_such() {
    // `,  92` reads as a bare string beside numbers. The rule it breaks is
    // real, but stating the rule leaves the writer to find which of four
    // elements is wrong; the element and the space are what they need.
    let error = parse("  scores:  90, 85,  92\n", ParseOptions::default())
        .unwrap_err()
        .display();
    assert!(error.contains("`92`"), "must name the element: {error:?}");
    assert!(error.contains("a number"), "must say what it would be: {error:?}");

    for (input, expected) in [
        ("  a:  1, 2,  true\n", "a boolean"),
        ("  a:  1, 2,  null\n", "null"),
    ] {
        let error = parse(input, ParseOptions::default()).unwrap_err().display();
        assert!(error.contains(expected), "{input:?}: {error:?}");
    }

    // A genuine word is a genuine mix, and the rule is the right thing to say.
    let word = parse("  a:  90, 85,  word\n", ParseOptions::default())
        .unwrap_err()
        .display();
    assert!(
        word.contains("all bare strings or no bare strings"),
        "a real mix keeps the rule statement: {word:?}"
    );
}

#[test]
fn table_padding_is_taught_on_the_side_it_belongs() {
    // Header and cell reach the same mistake by different paths: a column is
    // padded on the right, and a leading space means something else in both
    // places -- nothing in "invalid table header key" says so.
    let header = parse(
        "  t:\n    |name    | age  |role    |\n    |a       |1     |b       |\n",
        ParseOptions::default(),
    )
    .unwrap_err()
    .display();
    assert!(
        header.contains("cannot begin with a space") && header.contains("on the right"),
        "the header must name the rule and the side: {header:?}"
    );

    let cell = parse(
        "  t:\n    |name    |age   |role    |\n    | Alice  |  30   | admin  |\n",
        ParseOptions::default(),
    )
    .unwrap_err()
    .display();
    assert!(
        cell.contains("padded on the right, not the left"),
        "the cell must name the side too: {cell:?}"
    );
    assert!(
        cell.contains("opening quote"),
        "and why the second space is not padding: {cell:?}"
    );
}

/// The two halves of one rule, checked against each other over the whole
/// held-back set rather than over the one character that happened to differ.
///
/// A run gives back what it may not end on; the fold lookahead asks whether
/// what was given back is only that. Written as two lists, they disagreed
/// about PIPELIKE -- reachable because U+01C0 is a PIPELIKE and a letter, so
/// it gets into a run and is then stripped out of it -- and a folded bare key
/// ending in one was refused with `there is no colon on this line`, which was
/// false: the colon was on the continuation.
///
/// A letter from each set is used, so the test is about the sets and not
/// about `|` or `,`, neither of which can end a run in the first place.
#[test]
fn a_folded_bare_key_reads_the_same_whatever_it_holds_back() {
    // U+01C0 PIPELIKE, U+02BB COMMALIKE, U+02BC QUOTELIKE -- each also a
    // letter, so each reaches the end of a run.
    for held_back in ['\u{01C0}', '\u{02BB}', '\u{02BC}'] {
        let folded = format!("  ab{held_back}\n  / cd: 1\n");
        let value = parse(&folded, ParseOptions::default())
            .unwrap_or_else(|error| panic!("U+{:04X}: {error:?}", held_back as u32));
        // A fold joins the two fragments with nothing between them, so the
        // held-back character ends up interior rather than trailing -- which
        // is exactly why it stops being held back.
        assert_eq!(
            key_str(&value, &format!("ab{held_back}cd")),
            Some("1"),
            "U+{:04X}: a held-back character is interior once the fold continues it",
            held_back as u32,
        );
        // The rule it is held back by is untouched: ending there is still out.
        let ends_on_it = format!("  ab{held_back}: 1\n");
        let error = parse(&ends_on_it, ParseOptions::default())
            .expect_err("a bare key may not end on a held-back character")
            .display();
        assert!(error.contains("cannot end with"), "U+{:04X}: {error:?}", held_back as u32);
    }
}

#[test]
fn a_line_with_no_colon_and_a_stray_fold_marker_say_so() {
    // Both used to arrive as "invalid value start", which names the text --
    // where nothing is wrong -- instead of the thing that is missing.
    let no_colon = parse("  a 1\n", ParseOptions::default()).unwrap_err().display();
    assert!(no_colon.contains("no colon on this line"), "{no_colon:?}");
    assert!(
        no_colon.contains("`key: value`"),
        "must show the shape of an entry: {no_colon:?}"
    );

    let stray = parse("  / x\n", ParseOptions::default()).unwrap_err().display();
    assert!(
        stray.contains("nothing above this line is left open"),
        "must name the missing thing, not the text: {stray:?}"
    );

    // The colon test reads the physical line, not the value fragment -- a
    // fragment after a colon has none of its own, and reading that as "no
    // colon" would hijack every value fault on a well-formed entry.
    let value_fault = parse("  a:  x\n", ParseOptions::default()).unwrap_err().display();
    assert!(
        value_fault.contains("opening quote"),
        "a value fault on a line that has a colon must survive: {value_fault:?}"
    );
}

/// A comment between a value and the `/ ` line continuing it.
const COMMENT_IN_FOLD: &str = "  key: aaaaaaaaaa\n  // stray\n  / bbbbbbbbbb\n";

#[test]
fn comment_in_fold_rejected_by_default() {
    let error = parse(COMMENT_IN_FOLD, ParseOptions::default()).unwrap_err().display();
    assert!(
        error.contains("may not appear inside a fold"),
        "the error must name the rule: {error:?}"
    );
}

#[test]
fn comment_in_fold_discard_keeps_the_value_and_drops_the_comment() {
    let value = parse(
        COMMENT_IN_FOLD,
        ParseOptions::default().comment_placement_error(CommentPlacementError::Discard),
    )
    .expect("the value survives");
    assert_eq!(
        key_str(&value, "key"),
        Some("aaaaaaaaaabbbbbbbbbb"),
        "the fold still reassembles across the discarded comment"
    );
}

#[test]
fn comment_in_fold_hoist_keeps_both() {
    // Discard loses what someone wrote; Hoist is the reading that does not.
    // A Document keeps comments, so this is where the difference shows.
    let document: Document = parse_document(
        COMMENT_IN_FOLD,
        ParseOptions::default().comment_placement_error(CommentPlacementError::Hoist),
    )
    .expect("the value survives");
    let root = document.root();

    // A hoisted comment goes to the next node created. When the fold is the
    // last thing in the document there is no next node, so it lands among
    // the trailing comments instead -- still kept, which is the whole point
    // of Hoist over Discard, but not necessarily back where it was written.
    let entries = root.entries().expect("an object at the root");
    let kept: Vec<&str> = entries
        .iter()
        .flat_map(|entry| entry.value().comments_before())
        .chain(document.trailing_comments())
        .map(|comment| comment.text())
        .collect();
    assert!(
        kept.iter().any(|text| text.contains("stray")),
        "Hoist must keep the comment, unlike Discard: {kept:?}"
    );
}

/// The value stored at a top-level key.
fn key_value<'a>(value: &'a Value, key: &str) -> Option<&'a Value> {
    let Value::Object(entries) = value else { return None };
    entries.iter().find(|entry| entry.key == key).map(|entry| &entry.value)
}

#[test]
fn a_multi_level_jump_without_a_marker_is_rejected_by_default() {
    // The specification's reading, and the one every existing document was
    // written against: depth below one level is spelled with a marker chain,
    // so indentation alone is an error however far it goes.
    for input in [
        "  m:\n      3\n",
        "  m:\n        3\n",
        "  m:\n      a: x\n",
        "  m:\n       bare\n",
    ] {
        let error = parse(input, ParseOptions::default())
            .expect_err("a jump of more than one level needs a marker chain")
            .display();
        assert!(
            error.contains("indent"),
            "the error must be about the indent, not something downstream: {input:?} gave {error:?}"
        );
    }
}

#[test]
fn one_level_is_unaffected_by_either_reading() {
    // The option is about jumps of more than one level. Ordinary nesting --
    // and the odd column of a bare string, which is its opening quote and
    // not part of the indent -- must read identically under both.
    for input in [
        "  m:\n    3\n",
        "  m:\n     bare\n",
        "  m:\n    a: x\n",
        "  m:\n  [ [ 3\n",
    ] {
        let spec = parse(input, ParseOptions::default())
            .unwrap_or_else(|error| panic!("{input:?} is valid TJSON: {error:?}"));
        let inferred = parse(
            input,
            ParseOptions::default().missing_indent_marker(MissingIndentMarker::Infer),
        )
        .unwrap_or_else(|error| panic!("{input:?} must still be valid: {error:?}"));
        assert_eq!(spec, inferred, "Infer changed a document it has no business touching: {input:?}");
    }
}

#[test]
fn infer_reads_the_missing_levels_off_the_indentation() {
    // Two extra columns is one extra level, four is two. The levels above
    // the deepest can only be arrays, so the marker chain they stand for is
    // `[ [ 3` and `[ [ [ 3`.
    let options = ParseOptions::default().missing_indent_marker(MissingIndentMarker::Infer);

    let one = parse("  m:\n      3\n", options).expect("one inferred level");
    assert_eq!(
        key_value(&one, "m"),
        parse("  m:\n  [ [ 3\n", ParseOptions::default())
            .ok()
            .as_ref()
            .and_then(|value| key_value(value, "m")),
        "a jump of two columns must read as the two-marker chain"
    );

    let two = parse("  m:\n        3\n", options).expect("two inferred levels");
    assert_eq!(
        key_value(&two, "m"),
        parse("  m:\n  [ [ [ 3\n", ParseOptions::default())
            .ok()
            .as_ref()
            .and_then(|value| key_value(value, "m")),
        "a jump of four columns must read as the three-marker chain"
    );
}

#[test]
fn infer_lets_only_the_deepest_level_be_an_object() {
    // An object cannot sit directly inside an object -- there is nowhere to
    // write the key -- so the inferred levels are arrays and only the
    // bottom one answers to what is written there.
    let options = ParseOptions::default().missing_indent_marker(MissingIndentMarker::Infer);
    let value = parse("  m:\n      a: x\n", options).expect("an object at the bottom");
    assert_eq!(
        key_value(&value, "m"),
        parse("  m:\n  [ { a: x\n", ParseOptions::default())
            .ok()
            .as_ref()
            .and_then(|value| key_value(value, "m")),
        "the deepest level takes the kind its content says, the level above it is an array"
    );

    // Two inferred levels, so two arrays above the object rather than one.
    let deeper = parse("  m:\n        a: x\n", options).expect("an object two levels down");
    assert_eq!(
        key_value(&deeper, "m"),
        parse("  m:\n  [ [ { a: x\n", ParseOptions::default())
            .ok()
            .as_ref()
            .and_then(|value| key_value(value, "m")),
        "every level above the deepest is an array however many there are"
    );
}

#[test]
fn an_array_element_may_step_in_from_the_element_above_it() {
    // One step is a step the reader sees: a line, then a line one in. The
    // marker is not required at one step, and the kind is settled by what
    // is written there. Default reading -- this is legal TJSON, not a
    // relaxation.
    let object = parse("  5\n    key: value\n", ParseOptions::default())
        .expect("an object element written without its marker");
    assert_eq!(object.to_json().replace([' ', '\n'], ""), "[5,{\"key\":\"value\"}]");

    let array = parse("  5\n    1, 2\n", ParseOptions::default())
        .expect("an array element written without its marker");
    assert_eq!(array.to_json().replace([' ', '\n'], ""), "[5,[1,2]]");

    // The whole run at that depth goes inside the one container. A second
    // container beside it would have to say so, and nothing here does.
    let shared = parse("  5\n    a:1\n    b:2\n", ParseOptions::default())
        .expect("two lines at one depth");
    assert_eq!(shared.to_json().replace([' ', '\n'], ""), "[5,{\"a\":1,\"b\":2}]");

    // Writing the marker at the element column says the same thing.
    assert_eq!(object, parse("  5\n  { key: value\n", ParseOptions::default()).unwrap());
    assert_eq!(array, parse("  5\n  [ 1, 2\n", ParseOptions::default()).unwrap());
}

#[test]
fn a_marker_two_columns_over_is_a_different_document() {
    // Location decides, so moving a marker is not a more explicit spelling
    // of the same page -- it is another page. At the element column the
    // object is the element; one step in, the object sits inside the
    // element, and the element is the container holding it.
    let at_element = parse("  5\n  { key: value\n", ParseOptions::default()).unwrap();
    let one_deeper = parse("  5\n    { key: value\n", ParseOptions::default()).unwrap();
    assert_eq!(at_element.to_json().replace([' ', '\n'], ""), "[5,{\"key\":\"value\"}]");
    assert_eq!(one_deeper.to_json().replace([' ', '\n'], ""), "[5,[{\"key\":\"value\"}]]");
    assert_ne!(at_element, one_deeper, "two columns apart is two documents");
}

#[test]
fn a_step_needs_something_to_step_in_from() {
    // With nothing at the element column, the first thing on the page is
    // already deeper than the level it belongs to. No step is visible, so
    // this is a jump, and a jump is spelled with markers.
    for input in ["    1\n", "    key: value\n"] {
        parse(input, ParseOptions::default())
            .expect_err("nothing above it to sit inside");
    }
    // And the multi-level jump stays refused even with an element above,
    // because two steps is not a step the reader can see.
    parse("  5\n      key: value\n", ParseOptions::default())
        .expect_err("two steps needs the chain");
}

#[test]
fn require_forced_refuses_the_unmarked_step() {
    // The reading that accepts only what `force_markers` writes: legal
    // TJSON, but with a level that has no mark on it.
    let options = ParseOptions::default().missing_indent_marker(MissingIndentMarker::RequireForced);
    parse("  5\n    key: value\n", options)
        .expect_err("legal, but unmarked");
    assert_eq!(
        parse("  5\n  { key: value\n", ParseOptions::default()).unwrap().to_json(),
        parse("  5\n    key: value\n", ParseOptions::default()).unwrap().to_json(),
        "and the marked spelling it asks for means the same thing"
    );
}

#[test]
fn both_bare_string_openers_read_as_the_same_string() {
    // `_` stands where the opening space would stand. It is the same string
    // written two ways, so the trees must be equal -- including in the
    // packed forms, where every element carries its own opener.
    for (marked, plain) in [
        ("  k:_foo\n", "  k: foo\n"),
        ("  k:  _a  _b\n", "  k:   a   b\n"),
        ("  _a\n  _b\n", "   a\n   b\n"),
        ("  |h  |\n  |_a |\n", "  |h  |\n  | a |\n"),
    ] {
        let left = parse(marked, ParseOptions::default())
            .unwrap_or_else(|error| panic!("{marked:?}: {error:?}"));
        let right = parse(plain, ParseOptions::default())
            .unwrap_or_else(|error| panic!("{plain:?}: {error:?}"));
        assert_eq!(left.to_json(), right.to_json(), "{marked:?} must read as {plain:?}");
    }
}

#[test]
fn a_bare_string_may_not_start_with_the_marker_it_would_be_read_as() {
    // Every member of the set, not just the low line: the rule is about what
    // a reader takes for a marker, and that is the whole set by definition.
    for glyph in ['_', '\u{02CD}', '\u{23BC}', '\u{23BD}', '\u{2581}', '\u{FF3F}'] {
        let input = format!("  k: {glyph}foo\n");
        let error = parse(&input, ParseOptions::default())
            .expect_err("a bare string cannot open with a marker lookalike")
            .display();
        assert!(error.contains("marker"), "U+{:04X}: {error:?}", glyph as u32);
    }
    // Quoting it is the way out, and it still means what it says.
    assert_eq!(
        key_str(&parse("  k:\"_foo\"\n", ParseOptions::default()).unwrap(), "k"),
        Some("_foo")
    );
}

#[test]
fn a_bare_string_may_not_start_with_a_solidus_lookalike() {
    // The solidus opens a fold continuation and both indent offset glyphs,
    // so a character shaped like one at the start of a bare string is read
    // as a fold marker by a person even though it is not one to the parser.
    // That is a sharper reason than the other sets have, which is why the
    // whole set is barred and not just `/`.
    for glyph in ['/', '\u{1735}', '\u{2044}', '\u{2215}', '\u{2571}', '\u{29F8}', '\u{FF0F}'] {
        let input = format!("  k: {glyph}foo\n");
        let error = parse(&input, ParseOptions::default())
            .expect_err("a bare string cannot open with a solidus lookalike")
            .display();
        assert!(error.contains("fold marker"), "U+{:04X}: {error:?}", glyph as u32);
    }
}

#[test]
fn the_solidus_and_the_low_line_are_barred_at_the_start_only() {
    // Unlike the pipe and the quote, which a reader meets as edges and which
    // are therefore barred at both ends, these two open things and close
    // nothing. Inside a bare string they sit in running text, where no
    // reader takes them for syntax.
    for input in ["  k: a/b\n", "  k: a_b\n", "  k: ab/\n", "  k: ab_\n"] {
        parse(input, ParseOptions::default())
            .unwrap_or_else(|error| panic!("{input:?} is a legal bare string: {error:?}"));
    }
}

#[test]
fn the_explicit_inline_array_start_reads_as_the_two_space_one() {
    // Spec, array starters 2 and 3: `[ ` where the `  ` would go is legal
    // and means exactly the same thing. Under the default reading, since
    // this is the specification's own allowance and not a relaxation.
    for (explicit, normal) in [
        ("  k:[ 1, 2\n", "  k:  1, 2\n"),
        ("  k:[  a   b\n", "  k:   a   b\n"),
    ] {
        let read = parse(explicit, ParseOptions::default())
            .unwrap_or_else(|error| panic!("{explicit:?} is legal TJSON: {error:?}"));
        let plain = parse(normal, ParseOptions::default())
            .unwrap_or_else(|error| panic!("{normal:?}: {error:?}"));
        assert_eq!(read, plain, "{explicit:?} must read as {normal:?}");
    }
    // `[]` and MINIMAL JSON still take their own paths -- the new strip
    // needs the space and must not have eaten either of them.
    assert!(
        matches!(
            key_value(&parse("  k:[]\n", ParseOptions::default()).unwrap(), "k"),
            Some(Value::Array(elements)) if elements.is_empty()
        ),
        "`k:[]` is still the empty array, not a packed one"
    );
    assert_eq!(
        parse("  k:[1,2]\n", ParseOptions::default()).unwrap(),
        parse("  k:  1, 2\n", ParseOptions::default()).unwrap(),
    );
}

#[test]
fn infer_reads_a_missing_marker_on_the_marker_line_itself() {
    // Every input on the left is a broken document -- the chain is required
    // once a value moves more than one level, and part of it is missing.
    // What is pinned is what stepping over that error yields: the same tree
    // as the correct spelling on the right, because both put their values
    // in the same columns and the columns are what carry the depth.
    let options = ParseOptions::default().missing_indent_marker(MissingIndentMarker::Infer);
    for (inferred, spelled) in [
        ("  [   { key: value\n", "  [ [ { key: value\n"),
        ("  [   1\n", "  [ [ 1\n"),
        ("  [     1\n", "  [ [ [ 1\n"),
        ("  [   [ 1\n", "  [ [ [ 1\n"),
    ] {
        let read = parse(inferred, options)
            .unwrap_or_else(|error| panic!("{inferred:?} under Infer: {error:?}"));
        let written = parse(spelled, ParseOptions::default())
            .unwrap_or_else(|error| panic!("{spelled:?} is valid TJSON: {error:?}"));
        assert_eq!(read, written, "{inferred:?} must read as {spelled:?}");
    }
}

#[test]
fn an_inferred_slot_takes_its_kind_from_what_follows_it() {
    // Only the deepest level may be an object. When the inferred slot is
    // the deepest it answers to its content; when an explicit marker comes
    // after it, it is interior and can only be an array.
    let options = ParseOptions::default().missing_indent_marker(MissingIndentMarker::Infer);

    let object = parse("  [   a: x\n", options).expect("a key makes the inferred level an object");
    assert_eq!(object, parse("  [ { a: x\n", ParseOptions::default()).unwrap());

    let array = parse("  [   1\n", options).expect("a scalar leaves it an array");
    assert_eq!(array, parse("  [ [ 1\n", ParseOptions::default()).unwrap());

    // Interior: the `{` after it is explicit, so the inferred level above
    // it is an array no matter that an object sits below.
    let interior = parse("  [   { a: x\n", options).expect("interior inferred level");
    assert_eq!(interior, parse("  [ [ { a: x\n", ParseOptions::default()).unwrap());
}

#[test]
fn a_bare_string_still_gets_its_opening_quote_after_an_inferred_slot() {
    // The leftover space is the bare string's one-sided quote, not half a
    // level. Four spaces is one inferred level plus a quote, so it is the
    // string "1" one level down -- not the number, and not two levels.
    let options = ParseOptions::default().missing_indent_marker(MissingIndentMarker::Infer);
    assert_eq!(
        parse("  [    1\n", options).expect("inferred level then a bare string"),
        parse("  [ [  1\n", ParseOptions::default()).expect("the same thing spelled out"),
    );
    // And the spelled-out form really is the string, so the assertion above
    // is pinning the bare reading rather than agreeing with itself.
    assert_eq!(
        parse("  [ [  1\n", ParseOptions::default()).unwrap(),
        parse("  [ [ \"1\"\n", ParseOptions::default()).unwrap(),
    );
}

#[test]
fn siblings_at_one_depth_share_the_inferred_wrappers() {
    // Depth is satisfied by both readings, so the container count decides:
    // `[[[1, 2]]]` is three containers and `[[[1]], [[2]]]` is five. The
    // inferred level is opened once and both lines go inside it.
    let options = ParseOptions::default().missing_indent_marker(MissingIndentMarker::Infer);
    let shared = parse("  [   1\n      2\n", options).expect("two lines at one inferred depth");
    assert_eq!(
        shared,
        parse("  [ [ 1\n      2\n", ParseOptions::default()).expect("spelled out"),
        "the second line joins the first's wrapper instead of getting its own"
    );
    assert_eq!(shared.to_json().replace([' ', '\n'], ""), "[[[1,2]]]");
}

#[test]
fn reject_names_the_missing_marker_rather_than_counting_spaces() {
    // The old message came from the `k:` space ladder and talked about
    // keys, packed arrays and bare strings -- none of which is what a run
    // of spaces after a marker means. Default reading, so this is what a
    // user actually meets.
    let error = parse("  [   { key: value\n", ParseOptions::default())
        .expect_err("a missing marker is an error under the specification's reading")
        .display();
    assert!(error.contains("nesting marker"), "names the rule it broke: {error:?}");
    assert!(!error.contains("packed array"), "and not the `k:` ladder: {error:?}");
}

#[test]
fn a_typed_marker_keeps_the_depth_it_was_written_at() {
    // Inference may add levels; it may never move or drop one the writer
    // typed. A table header one space right of its level used to slide the
    // whole table there, putting a container at a depth nobody wrote.
    let ragged = "  [  |a  |b  |\n     |1  |2  |\n";
    for policy in [MissingIndentMarker::Reject, MissingIndentMarker::Infer] {
        let error = parse(ragged, ParseOptions::default().missing_indent_marker(policy))
            .expect_err("one space cannot open a pipe")
            .display();
        assert!(error.contains("bare string"), "explains the space under {policy:?}: {error:?}");
    }
    // Two spaces is a level, and at that level the table is fine again.
    let deeper = "  [   |a  |b  |\n      |1  |2  |\n";
    let inferred = parse(
        deeper,
        ParseOptions::default().missing_indent_marker(MissingIndentMarker::Infer),
    )
    .expect("two spaces is a marker, and the table sits below it");
    assert_eq!(inferred, parse("  [ [ |a  |b  |\n      |1  |2  |\n", ParseOptions::default()).unwrap());
}

/// The same one-line string in each of the three fence forms.
const ONE_LINE_FENCES: [(&str, &str); 3] = [
    ("transparent", "  doc: ```\nhello\n   ```\n"),
    ("bold",        "  doc: ``\n| hello\n   ``\n"),
    ("minimal",     "  doc: `\n    hello\n   `\n"),
];

#[test]
fn a_multiline_with_no_linefeed_parses_by_default() {
    // Spec: "the actual string data being displayed SHOULD contain at least
    // one linefeed and is REQUIRED to contain at least one data character",
    // and among the requirements, "MULTILINE STRINGS SHOULD contain at
    // least one real unescaped newline, but MUST contain at least one
    // character in order to parse." A SHOULD is not a parse error, so the
    // default reading takes all three forms.
    assert_eq!(
        ParseOptions::default().multiline_minimum,
        MultilineMinimum::Character,
        "the specification's floor is one character, so it is the default"
    );
    for (form, input) in ONE_LINE_FENCES {
        let value = parse(input, ParseOptions::default())
            .unwrap_or_else(|error| panic!("{form} is TJSON and must parse: {error:?}"));
        assert_eq!(
            key_str(&value, "doc"),
            Some("hello"),
            "{form} must yield the content with no trailing newline"
        );
    }
}

#[test]
fn eol_refuses_a_fence_with_no_linefeed_in_it() {
    // The strict reading promotes the SHOULD to a refusal, for the caller
    // who would rather hear that a fence holds one unbroken line.
    let options = ParseOptions::default().multiline_minimum(MultilineMinimum::Eol);
    for (form, input) in ONE_LINE_FENCES {
        let error = parse(input, options)
            .expect_err("Eol refuses a fence with no linefeed")
            .display();
        assert!(
            error.contains("linefeed"),
            "{form} must be refused for the reason it is refused: {error:?}"
        );
    }
}

#[test]
fn a_multiline_holding_one_character_that_is_an_eol_is_valid() {
    // The floor is one character and an EOL is a character, so data of
    // exactly "\n" clears it -- under both readings, since it is also a
    // data EOL. It takes two body lines to write, which is what separates
    // it from the empty fence one body line makes.
    for (form, input) in [
        ("transparent", "  doc: ```\n\n\n   ```\n"),
        ("bold", "  doc: ``\n| \n| \n   ``\n"),
        ("minimal", "  doc: `\n    \n    \n   `\n"),
    ] {
        for policy in [MultilineMinimum::Eol, MultilineMinimum::Character] {
            let value = parse(input, ParseOptions::default().multiline_minimum(policy))
                .unwrap_or_else(|error| panic!("{form} under {policy:?}: {error:?}"));
            assert_eq!(key_str(&value, "doc"), Some("\n"), "{form} under {policy:?}");
        }
    }
}

#[test]
fn an_empty_fence_is_rejected_under_every_reading() {
    // `""` is the only way to write the empty string and stays the only
    // way, so this is not what `Character` relaxes. Both shapes that could
    // produce one are covered: no body line at all, and a single body line
    // that is itself empty.
    for input in ["  doc: ```\n   ```\n", "  doc: ```\n\n   ```\n"] {
        for policy in [MultilineMinimum::Eol, MultilineMinimum::Character] {
            let error = parse(input, ParseOptions::default().multiline_minimum(policy))
                .expect_err("an empty multiline is never a way to write \"\"")
                .display();
            assert!(
                error.contains("\"\""),
                "the error must point at the spelling that does work, under {policy:?}: {error:?}"
            );
        }
    }
}

#[test]
fn a_real_multiline_is_unaffected_by_either_reading() {
    let input = "  doc: ```\nhello\nthere\n   ```\n";
    let spec = parse(input, ParseOptions::default()).expect("valid under the spec reading");
    let relaxed = parse(
        input,
        ParseOptions::default().multiline_minimum(MultilineMinimum::Character),
    )
    .expect("and still valid when the floor is lowered");
    assert_eq!(spec, relaxed, "Character must not change a document Eol already accepted");
    assert_eq!(key_str(&spec, "doc"), Some("hello\nthere"));
}

#[test]
fn infer_does_not_read_a_colon_inside_a_bare_string_as_a_key() {
    // The colon that makes an object is the one terminating a key, which
    // starts at the structural column. A bare string starts one column
    // right of it -- that column is its opening quote -- so every colon
    // inside it is content. `10:30:00` is the case the rule exists for.
    let options = ParseOptions::default().missing_indent_marker(MissingIndentMarker::Infer);
    let value = parse("  m:\n       10:30:00\n", options).expect("a bare string at the bottom");
    let Some(Value::Array(outer)) = key_value(&value, "m") else {
        panic!("the inferred level is an array: {value:?}")
    };
    let [Value::Array(inner)] = outer.as_slice() else {
        panic!("one inferred level holding one array: {outer:?}")
    };
    assert_eq!(
        inner.as_slice(),
        [Value::String("10:30:00".to_owned())],
        "the colons are content, so this is one bare string and not an object"
    );
}

#[test]
fn infer_still_rejects_a_document_that_is_simply_misaligned() {
    // Inference supplies levels; it does not forgive a line that belongs
    // nowhere. Here the second element dedents to a level no container is
    // open at, which is a fault about the document rather than about a
    // missing marker.
    let options = ParseOptions::default().missing_indent_marker(MissingIndentMarker::Infer);
    assert!(
        parse("  m:\n      3\n    4\n", options).is_err(),
        "a line at an indent no open container sits at must stay an error"
    );
}

#[test]
fn an_input_of_only_comments_is_refused_as_empty_and_says_why() {
    let error = parse("// a note\n// another\n", ParseOptions::default())
        .expect_err("a document of comments holds no value");
    assert_eq!(error.line(), 1);
    assert_eq!(
        error.message(),
        "empty input: a TJSON document must contain a value, and this one has only comments"
    );
    let error = parse("\n\n", ParseOptions::default()).expect_err("empty lines hold no value");
    assert_eq!(error.message(), "empty input: a TJSON document must contain a value");
}

#[test]
fn a_literal_may_be_followed_only_by_a_space_or_on_an_array_line_a_comma() {
    assert!(parse("  k:truex\n", ParseOptions::default()).is_err());
    assert!(parse("  k:null!\n", ParseOptions::default()).is_err());
    let Value::Object(entries) = parse("  k:true\n", ParseOptions::default()).unwrap() else {
        panic!("an entry reads as an object");
    };
    assert!(matches!(entries[0].value, Value::Bool(true)));
    assert!(parse("  k:  true, false\n", ParseOptions::default()).is_ok());
}

#[test]
fn folded_values_join_their_continuations_and_comments_inside_follow_the_policy() {
    let folded = "  k: abc\n  / def\n  / ghi\n";
    let value = parse(folded, ParseOptions::default()).unwrap();
    assert_eq!(key_str(&value, "k"), Some("abcdefghi"));
    let with_comment = "  k: abc\n  // note\n  / def\n";
    assert!(parse(with_comment, ParseOptions::default()).is_err());
    let value = parse(
        with_comment,
        ParseOptions::default().comment_placement_error(CommentPlacementError::Discard),
    )
    .unwrap();
    assert_eq!(key_str(&value, "k"), Some("abcdef"));
    let stray = "  k: abc\n   / def\n";
    assert!(parse(stray, ParseOptions::default()).is_err());
}

#[test]
fn a_line_left_over_after_the_root_value_is_refused_where_it_stands() {
    let error = parse_document("5\n6", ParseOptions::default()).expect_err("one value per document");
    assert_eq!((error.line(), error.column()), (2, 1));
    assert!(error.message().starts_with("unexpected trailing content"));
    let error = parse("true\n  x\n", ParseOptions::default()).expect_err("one value per document");
    assert_eq!((error.line(), error.column()), (2, 3));
}

#[test]
fn a_first_pair_the_reading_refuses_refuses_the_document() {
    for input in ["  a:nullx\n", "  a:falsey\n", "  k:90 \n", "  k:true b:2\n", "  k:1.2.3\n"] {
        assert!(parse(input, ParseOptions::default()).is_err(), "{input:?} must be refused");
    }
    let error = parse("  k:1.2.3\n", ParseOptions::default()).unwrap_err();
    assert_eq!(error.message(), "invalid JSON number: \"1.2.3\"");
    assert!(parse("  k:90 \n", ParseOptions::default().trailing_spaces(TrailingSpaces::Discard)).is_ok());
}

#[test]
fn a_discarded_byte_order_mark_reads_as_the_text_without_it() {
    let options = || ParseOptions::default().byte_order_mark(ByteOrderMark::Discard);
    for text in ["  a: 1\n", "[1, 2]", "  k:nullx\n"] {
        let with_mark = format!("\u{FEFF}{text}");
        match (parse(&with_mark, options()), parse(text, options())) {
            (Ok(a), Ok(b)) => assert_eq!(a, b),
            (Err(a), Err(b)) => assert_eq!((a.line(), a.column(), a.message().to_string()), (b.line(), b.column(), b.message().to_string())),
            other => panic!("{text:?} read differently behind a mark: {other:?}"),
        }
    }
}

#[test]
fn comments_above_a_lone_value_stay_with_it() {
    let doc = parse_document("// first\n  // second\n5\n", ParseOptions::default()).unwrap();
    let comments = doc.root().comments_before();
    assert_eq!(comments.len(), 2);
    assert_eq!(comments[0].text(), "// first");
    assert_eq!(comments[1].text(), "// second");
}

#[test]
fn an_array_line_may_not_mix_its_packings() {
    for input in ["  a:  90, 85,  word\n", "  tags:   rust   \"quoted\"\n", "  k:  1,  x\n"] {
        assert!(parse(input, ParseOptions::default()).is_err(), "{input:?} must be refused");
    }
    assert!(parse("  k:  1, 2\n", ParseOptions::default()).is_ok());
    assert!(parse("  tags:   rust   wasm\n", ParseOptions::default()).is_ok());
}

#[test]
fn two_spaces_do_not_stand_in_for_a_nesting_marker() {
    assert!(parse("[   x\n", ParseOptions::default()).is_err());
}

#[test]
fn comments_between_entries_leave_the_data_alone() {
    let with = "// header\n  a:5\n  // about b\n  b: text\n// left\n  c:\n    x:1\n    // inner\n    y:2\n// trailer\n";
    let without = "  a:5\n  b: text\n  c:\n    x:1\n    y:2\n";
    assert_eq!(parse(with, ParseOptions::default()).unwrap(), parse(without, ParseOptions::default()).unwrap());
    let doc = parse_document(with, ParseOptions::default()).unwrap();
    assert_eq!(doc.root().comments_before().len(), 1);
    assert_eq!(doc.root().comments_before()[0].text(), "// header");
}

#[test]
fn a_comment_further_out_than_the_one_above_is_refused_where_it_stands() {
    let error = parse("  // a\n// b\n  k:1\n", ParseOptions::default()).expect_err("the second comment steps out");
    assert_eq!(error.line(), 2);
    assert!(error.message().starts_with(
        "this comment is at column 1, further out than the comment on the line above it at column 3."
    ));
}

#[test]
fn a_packed_array_is_no_table_and_a_bare_string_says_how_it_was_written() {
    let doc = parse_document("  k:  1, 2\n  s: text\n  \"q\":1\n", ParseOptions::default()).unwrap();
    let entries = doc.root().entries().unwrap();
    assert_eq!(entries[0].value().table(), Some(false));
    assert_eq!(entries[1].value().string_form(), Some(StringForm::Bare(BareForm::Plain)));
    assert_eq!(entries[1].key_form(), Some(KeyForm::Bare));
    assert_eq!(entries[2].key_form(), Some(KeyForm::Quoted));
}

#[test]
fn a_table_needs_rows_and_each_row_its_header_s_cells() {
    assert!(parse("  |name  |score  |\n", ParseOptions::default()).is_err());
    let error = parse("  |name  |score  |\n  | Alice  |\n", ParseOptions::default()).unwrap_err();
    assert_eq!(error.message(), "table row has wrong number of cells");
    assert!(parse("  |name  |score  |\n  | Alice  |100  |\n", ParseOptions::default()).is_ok());
}
