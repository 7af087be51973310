use tjson::document::{
    BareForm, Comment, DocEntry, DocNode, Document, KeyForm, MultilineFlavor, Placement, StringForm,
};
use tjson::number::Number;
use tjson::value::Value;

fn doc(input: &str) -> Document {
    input.parse().expect("test document must parse")
}

fn entry<'a>(node: &'a DocNode, key: &str) -> &'a DocEntry {
    node.entries()
        .expect("expected object")
        .iter()
        .find(|e| e.key() == key)
        .unwrap_or_else(|| panic!("no entry {key}"))
}

#[test]
fn records_string_and_key_forms() {
    let d = doc("  bare: hello\n  quoted:\"world\"\n  \"qkey\":1");
    let root = d.root();
    assert_eq!(entry(root, "bare").value().string_form(), Some(StringForm::Bare(BareForm::Plain)));
    assert_eq!(entry(root, "bare").key_form(), Some(KeyForm::Bare));
    assert_eq!(entry(root, "quoted").value().string_form(), Some(StringForm::Quoted));
    assert_eq!(entry(root, "qkey").key_form(), Some(KeyForm::Quoted));
}

#[test]
fn records_multiline_flavor() {
    let d = doc("  note: ``\n| first\n| second\n   ``");
    let form = entry(d.root(), "note").value().string_form();
    assert_eq!(form, Some(StringForm::Multiline(MultilineFlavor::Double)));
}

#[test]
fn records_tables_and_plain_arrays() {
    let d = doc("  |a  |b  |\n  |1  |2  |");
    assert_eq!(d.root().table(), Some(true));

    let d = doc("  nums:  1, 2, 3");
    assert_eq!(entry(d.root(), "nums").value().table(), Some(false));
}

#[test]
fn attaches_entry_comments_with_placement() {
    let d = doc("  a:1\n  // about b\n  b:2\n// left about c\n  c:3");
    let root = d.root();
    assert!(entry(root, "a").comments_before().is_empty());

    let b_comments = entry(root, "b").comments_before();
    assert_eq!(b_comments.len(), 1);
    assert_eq!(b_comments[0].text(), "// about b");
    assert_eq!(b_comments[0].placement(), Placement::AtLevel);

    let c_comments = entry(root, "c").comments_before();
    assert_eq!(c_comments[0].text(), "// left about c");
    assert_eq!(c_comments[0].placement(), Placement::Left);
}

#[test]
fn attaches_comments_to_array_elements_and_table_rows() {
    let d = doc("  data:\n     one\n// note\n     two");
    let items = entry(d.root(), "data").value().items().expect("array");
    assert!(items[0].comments_before().is_empty());
    assert_eq!(items[1].comments_before()[0].text(), "// note");

    let d = doc("  |a  |\n  |1  |\n  // row note\n  |2  |");
    let rows = d.root().items().expect("table rows");
    assert_eq!(rows[1].comments_before()[0].text(), "// row note");
}

#[test]
fn attaches_root_and_trailing_comments() {
    let d = doc("// header\n  a:1\n// trailer");
    let root_comments = d.root().comments_before();
    assert_eq!(root_comments.len(), 1);
    assert_eq!(root_comments[0].text(), "// header");
    assert_eq!(root_comments[0].placement(), Placement::AtLevel);
    assert!(entry(d.root(), "a").comments_before().is_empty());

    assert_eq!(d.trailing_comments().len(), 1);
    assert_eq!(d.trailing_comments()[0].text(), "// trailer");
}

#[test]
fn dedent_comment_attaches_to_next_sibling() {
    let d = doc("  a:\n    x:1\n// about b\n  b:2");
    let b_comments = entry(d.root(), "b").comments_before();
    assert_eq!(b_comments.len(), 1);
    assert_eq!(b_comments[0].text(), "// about b");
}

#[test]
fn minimal_json_interior_records_quoted_forms() {
    let d = doc("  [{\"a\":\"x\"}]");
    let outer = d.root().items().expect("outer array");
    let fragment = outer[0].items().expect("fragment array");
    let inner = entry(&fragment[0], "a");
    assert_eq!(inner.key_form(), Some(KeyForm::Quoted));
    assert_eq!(inner.value().string_form(), Some(StringForm::Quoted));
}

#[test]
fn projection_round_trips_data() {
    let input = "// header\n  a:1.00\n  b: text\n  c:\n    [ 1, 2";
    let d = doc(input);
    let direct: Value = input.parse().expect("parses as Value");
    assert_eq!(d.to_value(), direct, "projection must equal the plain parse");

    let lifted = Document::from_value(&direct);
    assert_eq!(lifted.to_value(), direct);
    assert!(lifted.trailing_comments().is_empty());
}

#[test]
fn generators_can_attach_comments_and_facts() {
    let mut node = DocNode::object(vec![DocEntry::new("a".to_string(), DocNode::number(Number::from_i64(1)))]);
    let entries = node.entries_mut().expect("object");
    entries[0].push_comment_before(Comment::new("generated by test".to_string()));
    assert_eq!(entries[0].comments_before()[0].text(), "// generated by test");
    assert_eq!(entries[0].comments_before()[0].placement(), Placement::AtLevel);
}

#[test]
fn a_bare_string_written_with_the_low_line_records_the_marked_form() {
    let d = doc("  k:_foo");
    assert_eq!(entry(d.root(), "k").value().string_form(), Some(StringForm::Bare(BareForm::Marked)));
    assert_eq!(entry(d.root(), "k").value().as_str(), Some("foo"));
}
