use yasc::codegen::typescript::join_strings;
use yasc::util::{docs_of, push_doc_comment, replace_all, type_name_of, SchemaObjectExt, StringWriter};
use yasc::schema::{InstanceType, SchemaObject};

#[test]
fn writer_counts_bytes_across_take() {
    let mut w = StringWriter::new();
    assert!(w.is_empty());
    w.push_str("ab");
    w.push_str("é");
    assert_eq!(w.bytes_written(), 4);
    let taken = w.take();
    assert_eq!(taken, "abé");
    assert!(w.is_empty());
    assert_eq!(w.bytes_written(), 4);
    w.push_str("tail");
    w.prepend_str("head-");
    assert_eq!(w.bytes_written(), 13);
    assert_eq!(w.finish(), "head-tail");
}

#[test]
fn name_from_title_is_upper_camel_case() {
    let mut s = SchemaObject::new();
    s.title = Some(String::from("hello world"));
    assert_eq!(type_name_of(&s, None), Some(String::from("HelloWorld")));
}

#[test]
fn name_from_last_path_segment() {
    let s = SchemaObject::new();
    assert_eq!(
        type_name_of(&s, Some("https://example.com/schemas/UserProfile.json")),
        Some(String::from("UserProfile"))
    );
    assert_eq!(
        type_name_of(&s, Some("https://example.com/schemas/user_profile.v2.json")),
        Some(String::from("UserProfile"))
    );
}

#[test]
fn title_wins_over_id() {
    let mut s = SchemaObject::new();
    s.title = Some(String::from("order-line"));
    assert_eq!(
        type_name_of(&s, Some("https://example.com/UserProfile.json")),
        Some(String::from("OrderLine"))
    );
}

#[test]
fn no_name_without_title_or_id() {
    let s = SchemaObject::new();
    assert_eq!(type_name_of(&s, None), None);
    assert_eq!(type_name_of(&s, Some("data:text/plain,hello")), None);
}

#[test]
fn single_object_detection() {
    let mut s = SchemaObject::new();
    assert!(s.is_single_object());
    s.instance_type = Some(vec![InstanceType::Object]);
    assert!(s.is_single_object());
    s.instance_type = Some(vec![InstanceType::Object, InstanceType::Null]);
    assert!(!s.is_single_object());
    s.instance_type = Some(vec![InstanceType::String]);
    assert!(!s.is_single_object());
    let mut r = SchemaObject::new();
    r.reference = Some(String::from("root://Other"));
    assert!(!r.is_single_object());
    let mut c = SchemaObject::new();
    c.const_value = Some(String::from("1"));
    assert!(!c.is_single_object());
    let mut e = SchemaObject::new();
    e.enum_values = Some(Vec::new());
    assert!(!e.is_single_object());
}

#[test]
fn replace_all_rewrites_every_occurrence() {
    assert_eq!(replace_all("#/definitions/A", "#/definitions/", "root://"), "root://A");
    assert_eq!(replace_all("aXbXc", "X", "--"), "a--b--c");
    assert_eq!(replace_all("none", "#/definitions/", "root://"), "none");
    assert_eq!(replace_all("", "x", "y"), "");
}

#[test]
fn join_strings_separates_parts() {
    assert_eq!(join_strings(&vec![], " | "), "");
    assert_eq!(join_strings(&vec![String::from("a")], " | "), "a");
    assert_eq!(
        join_strings(&vec![String::from("a"), String::from("b"), String::from("c")], " & "),
        "a & b & c"
    );
}

#[test]
fn docs_of_reads_description() {
    let mut s = SchemaObject::new();
    assert_eq!(docs_of(&s), None);
    s.description = Some(String::from("text"));
    assert_eq!(docs_of(&s), Some("text"));
}

#[test]
fn doc_comment_lines() {
    let mut w = StringWriter::new();
    push_doc_comment(&mut w, "\n  one\ntwo  ");
    assert_eq!(w.finish(), "/**\n * one\n * two\n */\n");
    let mut w = StringWriter::new();
    push_doc_comment(&mut w, "   ");
    assert!(w.is_empty());
}
