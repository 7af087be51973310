use tjson::error::ParseError;
use tjson::value::Value;

fn json(input: &str) -> serde_json::Value {
    serde_json::from_str(input).unwrap()
}

fn parse_str(input: &str) -> Result<Value, ParseError> {
    input.parse()
}
#[test]
fn parses_basic_scalar_examples() {
    assert_eq!(
        json(&parse_str("null").unwrap().to_json()),
        json("null")
    );
    assert_eq!(
        json(&parse_str("5").unwrap().to_json()),
        json("5")
    );
    assert_eq!(
        json(&parse_str(" a").unwrap().to_json()),
        json("\"a\"")
    );
    assert_eq!(
        json(&parse_str("[]").unwrap().to_json()),
        json("[]")
    );
    assert_eq!(
        json(&parse_str("{}").unwrap().to_json()),
        json("{}")
    );
}

#[test]
fn parses_comments_and_marker_examples() {
    let input = "// comment\n  a:5\n// comment\n  x:\n    [ [ 1\n      { b: text";
    let expected = json("{\"a\":5,\"x\":[[1],{\"b\":\"text\"}]}");
    assert_eq!(
        json(&parse_str(input).unwrap().to_json()),
        expected
    );
}

// ---- Folding tests ----

// JSON string folding

#[test]
fn parses_folded_json_string_example() {
    let input =
        "\"foldingat\n/ onlyafew\\r\\n\n/ characters\n/ hereusing\n/ somejson\n/ escapes\\\\\"";
    let expected = json("\"foldingatonlyafew\\r\\ncharactershereusingsomejsonescapes\\\\\"");
    assert_eq!(
        json(&parse_str(input).unwrap().to_json()),
        expected
    );
}

#[test]
fn parses_folded_json_string_as_object_value() {
    // JSON string fold inside an object value
    let input = "  note:\"hello \n  / world\"";
    let expected = json("{\"note\":\"hello world\"}");
    assert_eq!(
        json(&parse_str(input).unwrap().to_json()),
        expected
    );
}

#[test]
fn parses_folded_json_string_multiple_continuations() {
    // Three fold lines
    let input = "\"one\n/ two\n/ three\n/ four\"";
    let expected = json("\"onetwothreefour\"");
    assert_eq!(
        json(&parse_str(input).unwrap().to_json()),
        expected
    );
}

#[test]
fn parses_folded_json_string_with_indent() {
    // Fold continuation with leading spaces (trimmed before `/ `)
    let input = "  key:\"hello \n  / world\"";
    let expected = json("{\"key\":\"hello world\"}");
    assert_eq!(
        json(&parse_str(input).unwrap().to_json()),
        expected
    );
}

// Bare string folding

#[test]
fn parses_folded_bare_string_root() {
    // Root bare string folded across two lines
    let input = " hello\n/ world";
    let expected = json("\"helloworld\"");
    assert_eq!(
        json(&parse_str(input).unwrap().to_json()),
        expected
    );
}

#[test]
fn parses_folded_bare_string_as_object_value() {
    // Bare string value folded
    let input = "  note: hello\n  / world";
    let expected = json("{\"note\":\"helloworld\"}");
    assert_eq!(
        json(&parse_str(input).unwrap().to_json()),
        expected
    );
}

#[test]
fn parses_folded_bare_string_multiple_continuations() {
    let input = "  note: one\n  / two\n  / three";
    let expected = json("{\"note\":\"onetwothree\"}");
    assert_eq!(
        json(&parse_str(input).unwrap().to_json()),
        expected
    );
}

#[test]
fn parses_folded_bare_string_preserves_space_after_fold_marker() {
    // Content after `/ ` starts with a space — that space becomes part of string
    let input = "  note: hello\n  /  world";
    let expected = json("{\"note\":\"hello world\"}");
    assert_eq!(
        json(&parse_str(input).unwrap().to_json()),
        expected
    );
}

// Key folding

#[test]
fn parses_folded_bare_key() {
    // A long bare key folded across two lines
    let input = "  averylongkey\n  / continuation: value";
    let expected = json("{\"averylongkeycontinuation\":\"value\"}");
    assert_eq!(
        json(&parse_str(input).unwrap().to_json()),
        expected
    );
}

#[test]
fn parses_folded_json_key() {
    // A long quoted key folded across two lines
    let input = "  \"averylongkey\n  / continuation\": value";
    let expected = json("{\"averylongkeycontinuation\":\"value\"}");
    assert_eq!(
        json(&parse_str(input).unwrap().to_json()),
        expected
    );
}

// Table cell folding

#[test]
fn parses_table_with_folded_cell() {
    // A table row where one cell is folded onto the next line using backslash continuation
    let input = "  |name     |score |\n  | Alice   |100   |\n  | Bob with a very long\n/ name    |200   |\n  | Carol   |300   |";
    let expected = json(
        "[{\"name\":\"Alice\",\"score\":100},{\"name\":\"Bob with a very longname\",\"score\":200},{\"name\":\"Carol\",\"score\":300}]"
    );
    assert_eq!(
        json(&parse_str(input).unwrap().to_json()),
        expected
    );
}

#[test]
fn parses_table_with_folded_cell_no_trailing_pipe() {
    // Table fold where the continuation line lacks a trailing pipe
    let input = "  |name     |value |\n  | short   |1     |\n  | this is really long\n/ continuation|2     |";
    let expected = json(
        "[{\"name\":\"short\",\"value\":1},{\"name\":\"this is really longcontinuation\",\"value\":2}]"
    );
    assert_eq!(
        json(&parse_str(input).unwrap().to_json()),
        expected
    );
}

#[test]
fn parses_triple_backtick_multiline_string() {
    // ``` type: content at col 0, mandatory closing glyph
    let input = "  note: ```\nfirst\nsecond\n  indented\n   ```";
    let expected = json("{\"note\":\"first\\nsecond\\n  indented\"}");
    assert_eq!(
        json(&parse_str(input).unwrap().to_json()),
        expected
    );
}

#[test]
fn parses_triple_backtick_crlf_multiline_string() {
    // ``` type with \r\n local EOL indicator
    let input = "  note: ```\\r\\n\nfirst\nsecond\n  indented\n   ```\\r\\n";
    let expected = json("{\"note\":\"first\\r\\nsecond\\r\\n  indented\"}");
    assert_eq!(
        json(&parse_str(input).unwrap().to_json()),
        expected
    );
}

#[test]
fn parses_double_backtick_multiline_string() {
    // `` type: pipe-guarded content lines, mandatory closing glyph
    let input = " ``\n| first\n| second\n ``";
    let expected = json("\"first\\nsecond\"");
    assert_eq!(
        json(&parse_str(input).unwrap().to_json()),
        expected
    );
}

#[test]
fn parses_double_backtick_with_explicit_lf_indicator() {
    let input = " ``\\n\n| first\n| second\n ``\\n";
    let expected = json("\"first\\nsecond\"");
    assert_eq!(
        json(&parse_str(input).unwrap().to_json()),
        expected
    );
}

#[test]
fn parses_double_backtick_crlf_multiline_string() {
    // `` type with \r\n local EOL indicator
    let input = " ``\\r\\n\n| first\n| second\n ``\\r\\n";
    let expected = json("\"first\\r\\nsecond\"");
    assert_eq!(
        json(&parse_str(input).unwrap().to_json()),
        expected
    );
}

#[test]
fn parses_double_backtick_with_fold() {
    // `` type with fold continuation line
    let input = " ``\n| first line that is \n/ continued here\n| second\n ``";
    let expected = json("\"first line that is continued here\\nsecond\"");
    assert_eq!(
        json(&parse_str(input).unwrap().to_json()),
        expected
    );
}

#[test]
fn parses_single_backtick_multiline_string() {
    // ` type: content at n+2, mandatory closing glyph
    let input = "  note: `\n    first\n    second\n    indented\n   `";
    let expected = json("{\"note\":\"first\\nsecond\\nindented\"}");
    assert_eq!(
        json(&parse_str(input).unwrap().to_json()),
        expected
    );
}

#[test]
fn parses_single_backtick_with_fold() {
    // ` type with fold continuation
    let input = "  note: `\n    first line that is \n  / continued here\n    second\n   `";
    let expected = json("{\"note\":\"first line that is continued here\\nsecond\"}");
    assert_eq!(
        json(&parse_str(input).unwrap().to_json()),
        expected
    );
}

#[test]
fn parses_single_backtick_with_leading_spaces_in_content() {
    // ` type preserves leading spaces after stripping n+2
    let input = " `\n  first\n    indented two extra\n  last\n `";
    let expected = json("\"first\\n  indented two extra\\nlast\"");
    assert_eq!(
        json(&parse_str(input).unwrap().to_json()),
        expected
    );
}

#[test]
fn rejects_triple_backtick_without_closing_glyph() {
    let input = "  note: ```\nfirst\nsecond";
    assert!(parse_str(input).is_err());
}

#[test]
fn rejects_double_backtick_without_closing_glyph() {
    let input = " ``\n| first\n| second";
    assert!(parse_str(input).is_err());
}

#[test]
fn rejects_single_backtick_without_closing_glyph() {
    let input = "  note: `\n    first\n    second";
    assert!(parse_str(input).is_err());
}

#[test]
fn rejects_double_backtick_body_without_pipe() {
    let input = " ``\njust some text\n| second\n ``";
    assert!(parse_str(input).is_err());
}

#[test]
fn parses_table_array_example() {
    let input = "  |a  |b   |c      |\n  |1  | x  |true   |\n  |2  | y  |false  |\n  |3  | z  |null   |";
    let expected = json(
        "[{\"a\":1,\"b\":\"x\",\"c\":true},{\"a\":2,\"b\":\"y\",\"c\":false},{\"a\":3,\"b\":\"z\",\"c\":null}]",
    );
    assert_eq!(
        json(&parse_str(input).unwrap().to_json()),
        expected
    );
}

#[test]
fn parses_minimal_json_inside_array_example() {
    let input = "  [{\"a\":{\"b\":null},\"c\":3}]";
    let expected = json("[[{\"a\":{\"b\":null},\"c\":3}]]");
    assert_eq!(
        json(&parse_str(input).unwrap().to_json()),
        expected
    );
}

#[test]
fn rejects_raw_forbidden_characters() {
    let input = format!("  note:\"a{}b\"", '\u{200D}');
    let error = parse_str(&input).unwrap_err();
    assert!(error.display().contains("U+200D"));
}

#[test]
fn keeps_key_order_at_the_ast_and_json_boundary() {
    let input = "  first:1\n  second:2\n  third:3";
    let value = parse_str(input).unwrap();
    match &value {
        Value::Object(entries) => {
            let keys = entries
                .iter()
                .map(|e| e.key.as_str())
                .collect::<Vec<_>>();
            assert_eq!(keys, vec!["first", "second", "third"]);
        }
        other => panic!("expected an object, found {other:?}"),
    }
    let json = json(&value.to_json());
    let keys = json
        .as_object()
        .unwrap()
        .keys()
        .map(String::as_str)
        .collect::<Vec<_>>();
    assert_eq!(keys, vec!["first", "second", "third"]);
}

#[test]
fn duplicate_keys_are_localized_to_the_json_boundary() {
    let input = "  dup:1\n  dup:2\n  keep:3";
    let value = parse_str(input).unwrap();
    match &value {
        Value::Object(entries) => assert_eq!(entries.len(), 3),
        other => panic!("expected an object, found {other:?}"),
    }
    let json_value = json(&value.to_json());
    assert_eq!(json_value, json("{\"dup\":2,\"keep\":3}"));
}

// ---- /< /> indent-offset tests ----

#[test]
fn parses_indent_offset_table() {
    // pair_indent=4 ("    h: /<"), table at visual 2 → actual 6.
    let input = "  outer:\n    h: /<\n  |name  |score  |\n  | Alice  |100  |\n  | Bob    |200  |\n  | Carol  |300  |\n     />\n    sib: value\n";
    let value = json(&parse_str(input).unwrap().to_json());
    let expected = json(
        "{\"outer\":{\"h\":[{\"name\":\"Alice\",\"score\":100},{\"name\":\"Bob\",\"score\":200},{\"name\":\"Carol\",\"score\":300}],\"sib\":\"value\"}}",
    );
    assert_eq!(value, expected);
}

#[test]
fn parses_indent_offset_deep_nesting() {
    // Verify that a second /< context stacks correctly and /> restores it.
    let input = "  a:\n    b: /<\n  c: /<\n  d:99\n   />\n  e:42\n     />\n  f:1\n";
    let value = json(&parse_str(input).unwrap().to_json());
    // After both /> pops, offset returns to 0, so "  f:1" is at pair_indent 2 —
    // a sibling of "a", not inside "b".
    let expected = json("{\"a\":{\"b\":{\"c\":{\"d\":99},\"e\":42}},\"f\":1}");
    assert_eq!(value, expected);
}


#[test]
fn every_refusal_names_a_place_and_quotes_that_line() {
    let inputs = [
        "",
        "  a:1\n  b:\u{7}2",
        "  a:1 \n",
        "  a:\n    b:1\n  /> x",
        "  a:1\n\n  b:tru",
        "  name: Alice\n  age:30\n   extra",
        " ``\n| one\n",
    ];
    for input in inputs {
        let e = parse_str(input).expect_err(input);
        assert!(e.line() >= 1, "{input:?}: {e:?}");
        assert!(e.column() >= 1, "{input:?}: {e:?}");
        if let Some(shown) = e.source_line() {
            let lines: Vec<&str> = input.split('\n').collect();
            assert_eq!(shown, lines[e.line() - 1], "{input:?}: {e:?}");
        }
    }
}

#[test]
fn a_lone_scalar_line_reads_as_that_scalar() {
    let cases = [
        ("true", "true"),
        ("false", "false"),
        ("null", "null"),
        ("-1.5e3", "-1.5e3"),
        (" hello world", "\"hello world\""),
        ("_x", "\"x\""),
        ("\"a\\nb\"", "\"a\\nb\""),
        ("[1,{\"a\":2}]", "[1,{\"a\":2}]"),
        ("0\n", "0"),
        ("5\r\n", "5"),
    ];
    for (input, expected) in cases {
        assert_eq!(json(&parse_str(input).unwrap().to_json()), json(expected), "{input:?}");
    }
}

#[test]
fn a_flat_object_reads_as_its_entries_in_order() {
    let input = "  name: Alice\n  age:30\n  active:true\n  \"q k\":null\n  e:[]\n  m:[1,{\"a\":2}]\n  name:_x\n";
    let value = parse_str(input).unwrap();
    match &value {
        Value::Object(entries) => {
            let keys: Vec<&str> = entries.iter().map(|e| e.key.as_str()).collect();
            assert_eq!(keys, vec!["name", "age", "active", "q k", "e", "m", "name"]);
        }
        other => panic!("expected an object, found {other:?}"),
    }
    assert_eq!(
        json(&value.to_json()),
        json("{\"name\":\"x\",\"age\":30,\"active\":true,\"q k\":null,\"e\":[],\"m\":[1,{\"a\":2}]}")
    );
}

#[test]
fn nested_objects_read_by_their_indentation() {
    let input = "  server:\n    host: example.org\n    port:8080\n    tls:\n      on:true\n  name: demo\n  limits:\n    max:10\n";
    assert_eq!(
        json(&parse_str(input).unwrap().to_json()),
        json("{\"server\":{\"host\":\"example.org\",\"port\":8080,\"tls\":{\"on\":true}},\"name\":\"demo\",\"limits\":{\"max\":10}}")
    );
}

#[test]
fn packed_entries_read_in_the_order_written() {
    let input = "  name: Alice    age:30    active:true\n  team:\n    lead: Bob  size:3\n  note: two words\n";
    assert_eq!(
        json(&parse_str(input).unwrap().to_json()),
        json("{\"name\":\"Alice\",\"age\":30,\"active\":true,\"team\":{\"lead\":\"Bob\",\"size\":3},\"note\":\"two words\"}")
    );
}

#[test]
fn arrays_of_one_scalar_per_line_read_in_order() {
    let input = "  tags:\n     rust\n    _wasm\n    \"json\"\n    3\n    [1,2]\n  on:true\n";
    assert_eq!(
        json(&parse_str(input).unwrap().to_json()),
        json("{\"tags\":[\"rust\",\"wasm\",\"json\",3,[1,2]],\"on\":true}")
    );
    assert_eq!(json(&parse_str("  1\n  null\n   x\n").unwrap().to_json()), json("[1,null,\"x\"]"));
}

#[test]
fn arrays_packed_on_a_line_read_in_order() {
    let input = "  scores:  90, 85, 92\n  tags:   rust   wasm   extra\n  mixed:  \"a\", true, null, -1.5\n  more:  1, 2\n    3, 4\n     x\n  on:true\n";
    assert_eq!(
        json(&parse_str(input).unwrap().to_json()),
        json("{\"scores\":[90,85,92],\"tags\":[\"rust\",\"wasm\",\"extra\"],\"mixed\":[\"a\",true,null,-1.5],\"more\":[1,2,3,4,\"x\"],\"on\":true}")
    );
    assert_eq!(json(&parse_str("  1, 2, 3\n   a   b\n").unwrap().to_json()), json("[1,2,3,\"a\",\"b\"]"));
    assert_eq!(
        json(&parse_str("  list:\n    1, 2\n     c   d\n").unwrap().to_json()),
        json("{\"list\":[1,2,\"c\",\"d\"]}")
    );
}

#[test]
fn tables_read_as_arrays_of_objects_by_column() {
    let input = "  team:\n    |name    |age  |role    |\n    | Alice  |30   | admin  |\n    | Bob    |25   |        |\n    | Carol  |35   | user   |\n  size:3\n";
    assert_eq!(
        json(&parse_str(input).unwrap().to_json()),
        json("{\"team\":[{\"name\":\"Alice\",\"age\":30,\"role\":\"admin\"},{\"name\":\"Bob\",\"age\":25},{\"name\":\"Carol\",\"age\":35,\"role\":\"user\"}],\"size\":3}")
    );
    let root = "  |\"k 1\"  |b     |\n  |true    |[1,2] |\n  |\"x|y\"  |{}    |\n";
    assert_eq!(
        json(&parse_str(root).unwrap().to_json()),
        json("[{\"k 1\":true,\"b\":[1,2]},{\"k 1\":\"x|y\",\"b\":{}}]")
    );
}

#[test]
fn the_readme_example_reads_as_its_json() {
    let input = "  name: Alice    age:30    active:true\n  bio: ``\n| She is a developer.\n| She loves Rust.\n   ``\n  scores:  90, 85, 92\n  tags:   rust   wasm   json   serialization\n  team:\n    |name    |age  |role    |\n    | Alice  |30   | admin  |\n    | Bob    |25   | user   |\n    | Carol  |35   | user   |\n";
    let expected = "{\"name\":\"Alice\",\"age\":30,\"active\":true,\"bio\":\"She is a developer.\\nShe loves Rust.\",\"scores\":[90,85,92],\"tags\":[\"rust\",\"wasm\",\"json\",\"serialization\"],\"team\":[{\"name\":\"Alice\",\"age\":30,\"role\":\"admin\"},{\"name\":\"Bob\",\"age\":25,\"role\":\"user\"},{\"name\":\"Carol\",\"age\":35,\"role\":\"user\"}]}";
    assert_eq!(json(&parse_str(input).unwrap().to_json()), json(expected));
}

#[test]
fn multiline_strings_read_line_by_line() {
    let triple = "  text: ```\nfirst line\n  second\n   ```\n  n:1\n";
    assert_eq!(json(&parse_str(triple).unwrap().to_json()), json("{\"text\":\"first line\\n  second\",\"n\":1}"));
    let folded = "  text: ``\n  | one\n  / two\n  | three\n   ``\n";
    assert_eq!(json(&parse_str(folded).unwrap().to_json()), json("{\"text\":\"onetwo\\nthree\"}"));
    let crlf = "  text: ``\\r\\n\n| a\n| b\n   ``\\r\\n\n";
    assert_eq!(json(&parse_str(crlf).unwrap().to_json()), json("{\"text\":\"a\\r\\nb\"}"));
}

#[test]
fn arrays_of_objects_open_with_nesting_markers() {
    let input = "  people:\n  [ { name: Ann  age:4\n      pets:\n        kind: cat\n    { name: Bo\n    7\n  n:2\n";
    assert_eq!(
        json(&parse_str(input).unwrap().to_json()),
        json("{\"people\":[{\"name\":\"Ann\",\"age\":4,\"pets\":{\"kind\":\"cat\"}},{\"name\":\"Bo\"},7],\"n\":2}")
    );
    assert_eq!(
        json(&parse_str("[ { a:1\n    b:2\n  { a:3\n").unwrap().to_json()),
        json("[{\"a\":1,\"b\":2},{\"a\":3}]")
    );
    assert_eq!(
        json(&parse_str("  xs:\n    1\n    { a:1\n      b:2\n").unwrap().to_json()),
        json("{\"xs\":[1,{\"a\":1,\"b\":2}]}")
    );
}
