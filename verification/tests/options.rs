use tjson::options::{
    commalike_set, colonlike_set, pipelike_set, quotelike_set, underscorelike_set,
    foreslashlike_set, squarebracketlike_set, curlybracketlike_set, structural_comma,
    structural_colon, structural_pipe, structural_quote, structural_underscore,
    structural_foreslash, structural_squarebracket, structural_curlybracket, retired_option_hint,
    Eol, ParseOptions, TrailingSpaces, MultilineMinimum,
};

fn lookalike_sets() -> [(&'static str, &'static [char], &'static [char]); 8] {
    [
        ("commalike", structural_comma(), commalike_set()),
        ("colonlike", structural_colon(), colonlike_set()),
        ("pipelike", structural_pipe(), pipelike_set()),
        ("quotelike", structural_quote(), quotelike_set()),
        ("underscorelike", structural_underscore(), underscorelike_set()),
        ("foreslashlike", structural_foreslash(), foreslashlike_set()),
        ("squarebracketlike", structural_squarebracket(), squarebracketlike_set()),
        ("curlybracketlike", structural_curlybracket(), curlybracketlike_set()),
    ]
}

#[test]
fn spec_sets_obey_the_rules_they_impose() {
    for (name, structural, set) in lookalike_sets() {
        ParseOptions::checked(name, structural, set)
            .unwrap_or_else(|error| panic!("SPEC_{}: {error}", name.to_uppercase()));
    }
}

#[test]
fn structural_characters_are_never_set_members() {
    for (name, structural, set) in lookalike_sets() {
        for ch in structural {
            assert!(
                !set.contains(ch),
                "U+{:04X} is structural and must not be in the {name} set",
                *ch as u32
            );
        }
    }
}

#[test]
fn retired_option_lookup_finds_hint() {
    let hint = retired_option_hint("tableMinCols").expect("tableMinCols is retired");
    assert!(hint.contains("tableMinColumns"), "hint must name the replacement: {hint}");
}

#[test]
fn current_option_names_are_not_retired() {
    assert_eq!(retired_option_hint("tableMinColumns"), None);
    assert_eq!(retired_option_hint("wrapWidth"), None);
}

#[test]
fn eol_from_str_rejects_unknown() {
    assert_eq!("lf".parse::<Eol>(), Ok(Eol::Lf));
    assert_eq!("crlf".parse::<Eol>(), Ok(Eol::CrLf));
    assert!("cr".parse::<Eol>().is_err(), "bare CR is not a supported output eol");
}

#[test]
fn the_default_reading_is_the_specifications() {
    let options = ParseOptions::default();
    assert_eq!(options.trailing_spaces, TrailingSpaces::Reject);
    assert_eq!(options.multiline_minimum, MultilineMinimum::Character);
    assert_eq!(options.start_indent, 0);
    assert!(options.is_comma_like('\u{3001}'));
    assert!(options.is_comma_like(','));
    assert!(!options.is_comma_like('a'));
}

#[test]
fn a_set_holding_its_structural_character_is_refused() {
    let error = ParseOptions::default().pipelike(&['|']).unwrap_err();
    assert!(error.contains("pipelike") && error.contains("it is TJSON syntax"), "{error}");
}

#[test]
fn eol_spells_its_line_ending() {
    assert_eq!(Eol::Lf.as_str(), "\n");
    assert_eq!(Eol::CrLf.as_str(), "\r\n");
}
