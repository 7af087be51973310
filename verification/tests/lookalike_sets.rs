use tjson::error::ParseError;
use tjson::options::ParseOptions;
use tjson::parse::parse_value;
use tjson::value::Value;


fn parse_with(input: &str, forms: ParseOptions) -> Result<Value, ParseError> {
    parse_value(input, forms)
}

/// A caller with no lookalikes at all -- the recovery reading. Nothing is
/// waived by it except deception, because that is all the sets hold.
fn no_lookalikes() -> ParseOptions {
    ParseOptions::default()
        .commalike(&[])
        .expect("empty is always a legal set")
        .colonlike(&[])
        .expect("empty is always a legal set")
        .pipelike(&[])
        .expect("empty is always a legal set")
        .quotelike(&[])
        .expect("empty is always a legal set")
}

#[test]
fn emptying_a_set_recovers_a_lookalike_but_never_the_delimiter() {
    // U+2502 BOX DRAWINGS LIGHT VERTICAL is PIPELIKE. It deceives a reader,
    // but it is not the character a table row is split on, so a document
    // containing one can be recovered by a caller who drops the set.
    let lookalike = "  k: abc\u{2502}";
    assert!(
        parse_with(lookalike, ParseOptions::default()).is_err(),
        "the specification's sets reject a pipelike"
    );
    assert!(
        parse_with(lookalike, no_lookalikes()).is_ok(),
        "a caller holding no lookalikes recovers it"
    );

    // The ASCII pipe is what a table row is actually split on. It is in no
    // set, so emptying every set does not reach it.
    let real = "  k: abc|";
    assert!(parse_with(real, ParseOptions::default()).is_err());
    assert!(
        parse_with(real, no_lookalikes()).is_err(),
        "a structural character is not a member of any set and cannot be waived"
    );
}

#[test]
fn a_set_may_not_contain_its_own_structural_character() {
    // The whole reason the sets are safe to hand out: a caller cannot put
    // the real thing in one and then remove it.
    for (name, result) in [
        ("commalike", ParseOptions::default().commalike(&[','])),
        ("colonlike", ParseOptions::default().colonlike(&[':'])),
        ("pipelike", ParseOptions::default().pipelike(&['|'])),
        ("quotelike", ParseOptions::default().quotelike(&['"'])),
    ] {
        let error = result.expect_err("{name} must refuse its structural character");
        assert!(
            error.contains(name) && error.contains("it is TJSON syntax"),
            "{name} error should name the set and say why: {error:?}"
        );
    }
}

#[test]
fn an_unsorted_or_repeating_set_is_refused() {
    // Silent misbehaviour otherwise: the sets are binary searched, so an
    // unsorted one stops matching some of its own members.
    let unsorted = ParseOptions::default()
        .pipelike(&['\u{2502}', '\u{00A6}'])
        .expect_err("descending set must be refused");
    assert!(unsorted.contains("sorted"), "should say what is wrong: {unsorted:?}");

    let repeated = ParseOptions::default()
        .commalike(&['\u{3001}', '\u{3001}'])
        .expect_err("repeated member must be refused");
    assert!(repeated.contains("twice"), "should say what is wrong: {repeated:?}");
}

#[test]
fn narrowing_a_set_reaches_the_key_path_too() {
    // Bare keys read through the same sets as bare strings. This was the
    // half that used to be hardcoded to the specification's reading, so a
    // caller could recover a value holding a lookalike but not a key.
    //
    // Both characters below are what makes the sets load bearing for keys
    // at all: each is a *letter*, so the positive character rules a bare
    // key is built on admit it, and only its set turns it away. A lookalike
    // that is not a letter -- U+2502, say -- never reaches the sets, since
    // a bare key does not admit symbols in the first place.
    let leading_pipelike = "  \u{01C0}ab: 1"; // LATIN LETTER DENTAL CLICK, Lo
    let trailing_commalike = "  ab\u{02BB}: 1"; // MODIFIER LETTER TURNED COMMA, Lm

    for input in [leading_pipelike, trailing_commalike] {
        assert!(
            parse_with(input, ParseOptions::default()).is_err(),
            "{input:?} must be refused under the specification's sets"
        );
        assert!(
            parse_with(input, no_lookalikes()).is_ok(),
            "{input:?} must be recovered by a caller holding no lookalikes"
        );
    }
}

#[test]
fn rules_that_are_not_lookalike_sets_are_never_waived() {
    // Two spaces separate packed entries, and the invisible classes cannot
    // be seen at all. Neither is a set, so there is nothing to empty.
    for input in ["  k: a  b", "  k: ab\u{200B}c"] {
        assert!(
            parse_with(input, ParseOptions::default()).is_err(),
            "{input:?} must fail under the specification"
        );
        assert!(
            parse_with(input, no_lookalikes()).is_err(),
            "{input:?} must still fail with every set emptied"
        );
    }
}

#[test]
fn a_refused_set_is_told_exactly_what_is_wrong() {
    let error = ParseOptions::default().pipelike(&['|']).expect_err("the pipe itself is syntax");
    assert_eq!(
        error,
        "the pipelike set may not contain `|` (U+007C): that character is not something that resembles TJSON syntax, it is TJSON syntax, and the parser tests for it directly. These sets hold only the characters a reader could mistake for it."
    );
    let error = ParseOptions::default().pipelike(&['\u{2502}', '\u{00A6}']).expect_err("descending");
    assert_eq!(
        error,
        "the pipelike set must be sorted by code point, but U+2502 precedes U+00A6; an unsorted set would quietly stop matching some of its own members"
    );
}
