use tjson::cli::help_text;
use tjson::lex::{
    bare_string_run, check_attempted_bare_key, check_bare_key, check_bare_string, is_attempted_closer,
    is_forbidden, leading, miscased_literal, parse_bare_key_prefix, parse_json_string_prefix, scan_lines,
    split_pipe_cells, token_end, BareFault, Context, KeyFault, Leading, Opener, Packing,
};
use tjson::minimal::parse_minimal_json;
use tjson::number::fraction_trailing_zeros;
use tjson::options::ParseOptions;

fn chars(s: &str) -> Vec<char> {
    s.chars().collect()
}

#[test]
fn scan_lines_splits_on_linefeeds_and_drops_the_final_empty_tail() {
    let lines = scan_lines(&chars("a\r\nbc\n")).ok().unwrap();
    assert_eq!(lines, vec![chars("a"), chars("bc")]);
    let lines = scan_lines(&chars("a\n\nb")).ok().unwrap();
    assert_eq!(lines, vec![chars("a"), chars(""), chars("b")]);
    let lines = scan_lines(&chars("")).ok().unwrap();
    assert_eq!(lines, vec![chars("")]);
}

#[test]
fn scan_lines_names_where_a_forbidden_character_sits() {
    let fault = scan_lines(&chars("ab\ncd\u{200B}e")).err().unwrap();
    assert_eq!((fault.line, fault.column, fault.ch), (1, 2, '\u{200B}'));
    assert!(scan_lines(&chars("a\rb")).is_err(), "a carriage return inside a line is content");
    assert!(scan_lines(&chars("a\tb")).is_ok(), "a tab is not forbidden");
    assert!(is_forbidden('\u{FEFF}'));
    assert!(!is_forbidden('\u{00E9}'));
}

#[test]
fn leading_reads_indent_and_opener() {
    assert_eq!(leading(&chars("  a: 1")), Ok(Leading { indent: 2, opener: Opener::Nothing }));
    assert_eq!(leading(&chars("   x")), Ok(Leading { indent: 2, opener: Opener::BareString }));
    assert_eq!(leading(&chars("  _x")), Ok(Leading { indent: 2, opener: Opener::BareString }));
    assert_eq!(leading(&chars("   /<")), Ok(Leading { indent: 2, opener: Opener::Glyph }));
    assert_eq!(leading(&chars("   / x")), Err(3));
}

#[test]
fn a_bare_run_stops_at_two_spaces_and_holds_back_one() {
    assert_eq!(bare_string_run(&chars(" a b  c")), 4);
    assert_eq!(bare_string_run(&chars(" abc ")), 4);
    assert_eq!(bare_string_run(&chars("  x")), 0);
    assert_eq!(bare_string_run(&chars(" a, 1")), 5);
}

#[test]
fn a_token_ends_at_its_separator_and_before_trailing_spaces() {
    let line = Context::ArrayLine(Packing::Undetermined);
    assert_eq!(token_end(&chars("12, 3"), line), 2);
    assert_eq!(token_end(&chars("12,"), line), 2);
    assert_eq!(token_end(&chars("90 "), Context::ObjectValue), 2);
    assert_eq!(token_end(&chars("true  b:1"), Context::ObjectValue), 4);
    assert_eq!(token_end(&chars("1 2"), Context::SingleValue), 3);
}

#[test]
fn bare_string_rules_name_the_first_fault() {
    let o = ParseOptions::default();
    assert_eq!(check_bare_string(&chars("hello world"), &o), Ok(()));
    assert_eq!(check_bare_string(&chars(""), &o), Err(BareFault::Empty));
    assert_eq!(check_bare_string(&chars("\"q"), &o), Err(BareFault::LeadingDoubleQuote));
    assert_eq!(check_bare_string(&chars("_x"), &o), Err(BareFault::LeadingLowLine('_')));
    assert_eq!(check_bare_string(&chars("/x"), &o), Err(BareFault::LeadingSolidus('/')));
    assert_eq!(check_bare_string(&chars("a  b"), &o), Err(BareFault::DoubleSpace));
    assert_eq!(check_bare_string(&chars("a\tb"), &o), Err(BareFault::Tab));
    assert_eq!(check_bare_string(&chars("ab,"), &o), Err(BareFault::TrailingEdge(',')));
    assert_eq!(check_bare_string(&chars("|ab"), &o), Err(BareFault::LeadingEdge('|')));
}

#[test]
fn bare_key_rules_name_the_first_fault() {
    let o = ParseOptions::default();
    assert_eq!(check_bare_key(&chars("name"), &o), Ok(()));
    assert_eq!(check_bare_key(&chars(""), &o), Err(KeyFault::Empty));
    assert_eq!(check_bare_key(&chars("_a"), &o), Err(KeyFault::LeadingLowLine('_')));
    assert_eq!(check_bare_key(&chars("a b"), &o), Err(KeyFault::NotKeyCharacter(' ')));
    assert_eq!(check_bare_key(&chars("ab\u{02BB}"), &o), Err(KeyFault::TrailingEdge('\u{02BB}')));
    assert_eq!(check_attempted_bare_key(&chars("no colon here"), &o), Ok(()));
    assert_eq!(check_attempted_bare_key(&chars("_k: v"), &o), Err(KeyFault::LeadingLowLine('_')));
}

#[test]
fn a_bare_key_prefix_gives_back_what_it_may_not_end_on() {
    let o = ParseOptions::default();
    assert_eq!(parse_bare_key_prefix(&chars("key: 1"), &o), Some(3));
    assert_eq!(parse_bare_key_prefix(&chars("ab\u{02BB}"), &o), Some(2));
    assert_eq!(parse_bare_key_prefix(&chars(" key"), &o), None);
    assert_eq!(parse_bare_key_prefix(&chars(":"), &o), None);
}

#[test]
fn a_json_string_prefix_is_decoded_by_serde_json() {
    let (value, end) = parse_json_string_prefix(&chars("\"a\\\"b\\u00e9\": 1")).unwrap();
    assert_eq!(value, "a\"b\u{e9}");
    assert_eq!(end, 12);
    assert!(parse_json_string_prefix(&chars("\"open")).is_none());
    assert!(parse_json_string_prefix(&chars("\"bad \\q\"")).is_none());
    assert!(parse_json_string_prefix(&chars("plain")).is_none());
}

#[test]
fn pipe_cells_keep_their_columns() {
    let cells = split_pipe_cells(&chars("|a  |\"x|y\"|")).unwrap();
    let texts: Vec<String> = cells.iter().map(|c| c.text.iter().collect()).collect();
    assert_eq!(texts, vec!["", "a  ", "\"x|y\"", ""]);
    let ats: Vec<usize> = cells.iter().map(|c| c.at).collect();
    assert_eq!(ats, vec![0, 1, 5, 11]);
    assert!(split_pipe_cells(&chars("|\"open|")).is_none());
}

#[test]
fn a_closer_is_recognised_with_spaces_either_side() {
    assert!(is_attempted_closer(&chars("   ``  "), &chars("``")));
    assert!(!is_attempted_closer(&chars("   `` x"), &chars("``")));
}

#[test]
fn miscased_literals_are_named() {
    assert_eq!(miscased_literal(&chars("TRUE")), Some("true"));
    assert_eq!(miscased_literal(&chars("Null")), Some("null"));
    assert_eq!(miscased_literal(&chars("false")), None);
    assert_eq!(miscased_literal(&chars("yes")), None);
}

#[test]
fn minimal_json_reads_compact_json() {
    let node = parse_minimal_json(&chars("{\"a\":[1,true,null],\"b\":\"x\"}")).ok().unwrap();
    assert_eq!(node.to_value().to_json(), "{\"a\":[1,true,null],\"b\":\"x\"}");
    let fault = parse_minimal_json(&chars("[1, 2]")).err().unwrap();
    assert!(fault.whitespace);
    assert_eq!(fault.at, 3);
    assert!(parse_minimal_json(&chars("[1,]")).is_err());
    assert!(parse_minimal_json(&chars("{\"a\"}")).is_err());
}

#[test]
fn minimal_json_stops_at_serde_jsons_depth() {
    let deep = format!("{}{}", "[".repeat(129), "]".repeat(129));
    assert!(parse_minimal_json(&chars(&deep)).is_err());
    let fine = format!("{}{}", "[".repeat(128), "]".repeat(128));
    assert!(parse_minimal_json(&chars(&fine)).is_ok());
}

#[test]
fn fraction_trailing_zeros_counts_only_the_fraction() {
    assert_eq!(fraction_trailing_zeros("2.50"), Some(1));
    assert_eq!(fraction_trailing_zeros("1.000e5"), Some(3));
    assert_eq!(fraction_trailing_zeros("100"), None);
    assert_eq!(fraction_trailing_zeros("2.5"), None);
    assert_eq!(fraction_trailing_zeros("1e10"), None);
}

#[test]
fn help_text_names_the_default_wrap_width() {
    let help = help_text();
    assert!(help.starts_with("Usage: tjson [OPTIONS] [-i FILE] [-o FILE]"));
    assert!(help.contains("(default: 80)"));
    assert!(help.contains("Force single-level [ and { markers"));
}
