use csv2json::merge::merge_values;
use csv2json::path::dimensional_converter;
use csv2json::row::{prepare_upsert, row_to_object, upsert_entry, ShapeMismatch};
use csv2json::sys::get_file_name;
use csv2json::value::Value;

fn text(s: &str) -> Value {
    Value::Scalar(s.to_string())
}

fn list(items: Vec<Value>) -> Value {
    Value::Sequence(items)
}

fn object(entries: Vec<(&str, Value)>) -> Value {
    Value::Mapping(entries.into_iter().map(|(k, v)| (k.to_string(), v)).collect())
}

fn strings(v: &[&str]) -> Vec<String> {
    v.iter().map(|s| s.to_string()).collect()
}

#[test]
fn no_separator_keeps_headers_as_keys() {
    let headers = strings(&["name", "a.b", "age"]);
    let doc = row_to_object(&headers, strings(&["ann", "x", "7"]), None).unwrap();
    assert_eq!(doc, object(vec![("name", text("ann")), ("a.b", text("x")), ("age", text("7"))]));
}

#[test]
fn no_separator_duplicates_keep_first_position() {
    let headers = strings(&["x", "y", "x"]);
    let doc = row_to_object(&headers, strings(&["1", "2", "3"]), None).unwrap();
    assert_eq!(doc, object(vec![("x", list(vec![text("1"), text("3")])), ("y", text("2"))]));
}

#[test]
fn nesting() {
    let headers = strings(&["a.b", "a.c"]);
    let doc = row_to_object(&headers, strings(&["1", "2"]), Some(".")).unwrap();
    assert_eq!(doc, object(vec![("a", object(vec![("b", text("1")), ("c", text("2"))]))]));
}

#[test]
fn duplicate_scalar_keys_merge_to_sequence() {
    let headers = strings(&["x", "x"]);
    let doc = row_to_object(&headers, strings(&["1", "2"]), None).unwrap();
    assert_eq!(doc, object(vec![("x", list(vec![text("1"), text("2")]))]));
}

#[test]
fn repeated_merges_accumulate_flat() {
    let headers = strings(&["x", "x", "x"]);
    let doc = row_to_object(&headers, strings(&["1", "2", "3"]), None).unwrap();
    assert_eq!(doc, object(vec![("x", list(vec![text("1"), text("2"), text("3")]))]));
}

#[test]
fn nested_merge_union() {
    let headers = strings(&["a.b", "a.c", "a.b"]);
    let doc = row_to_object(&headers, strings(&["1", "2", "3"]), Some(".")).unwrap();
    assert_eq!(
        doc,
        object(vec![("a", object(vec![("b", list(vec![text("1"), text("3")])), ("c", text("2"))]))])
    );
}

#[test]
fn rows_are_independent() {
    let headers = strings(&["a.b", "c"]);
    let first = row_to_object(&headers, strings(&["1", "2"]), Some(".")).unwrap();
    let mut second = row_to_object(&headers, strings(&["3", "4"]), Some(".")).unwrap();
    assert_eq!(first, object(vec![("a", object(vec![("b", text("1"))])), ("c", text("2"))]));
    assert_eq!(second, object(vec![("a", object(vec![("b", text("3"))])), ("c", text("4"))]));
    if let Value::Mapping(entries) = &mut second {
        if let Value::Mapping(inner) = &mut entries[0].1 {
            inner[0].1 = text("changed");
        }
        entries.clear();
    }
    assert_eq!(first, object(vec![("a", object(vec![("b", text("1"))])), ("c", text("2"))]));
    assert_eq!(headers, strings(&["a.b", "c"]));
}

#[test]
fn length_mismatch_is_refused() {
    let headers = strings(&["a", "b"]);
    assert_eq!(
        row_to_object(&headers, strings(&["1"]), None),
        Err(ShapeMismatch { headers: 2, cells: 1 })
    );
    assert_eq!(
        row_to_object(&headers, strings(&["1", "2", "3"]), Some(".")),
        Err(ShapeMismatch { headers: 2, cells: 3 })
    );
}

#[test]
fn empty_row_gives_empty_document() {
    let doc = row_to_object(&Vec::new(), Vec::new(), Some(".")).unwrap();
    assert_eq!(doc, object(vec![]));
}

#[test]
fn split_without_separator() {
    let (k, v) = dimensional_converter("a.b".to_string(), "1".to_string(), &None);
    assert_eq!(k, "a.b");
    assert_eq!(v, text("1"));
}

#[test]
fn split_header_without_separator_in_it() {
    let (k, v) = dimensional_converter("plain".to_string(), "1".to_string(), &Some("."));
    assert_eq!(k, "plain");
    assert_eq!(v, text("1"));
}

#[test]
fn split_three_levels() {
    let (k, v) = dimensional_converter("a.b.c".to_string(), "v".to_string(), &Some("."));
    assert_eq!(k, "a");
    assert_eq!(v, object(vec![("b", object(vec![("c", text("v"))]))]));
}

#[test]
fn split_other_separator_rejoins_rest_with_dots() {
    let (k, v) = dimensional_converter("a/b/c".to_string(), "v".to_string(), &Some("/"));
    assert_eq!(k, "a");
    assert_eq!(v, object(vec![("b.c", text("v"))]));
}

#[test]
fn split_multichar_separator() {
    let (k, v) = dimensional_converter("a::b::c".to_string(), "v".to_string(), &Some("::"));
    assert_eq!(k, "a");
    assert_eq!(v, object(vec![("b.c", text("v"))]));
}

#[test]
fn split_empty_segments_pass_through() {
    let (k, v) = dimensional_converter(".a.".to_string(), "v".to_string(), &Some("."));
    assert_eq!(k, "");
    assert_eq!(v, object(vec![("a", object(vec![("", text("v"))]))]));
}

#[test]
fn merge_two_scalars() {
    assert_eq!(merge_values(&text("1"), &text("2")), list(vec![text("1"), text("2")]));
}

#[test]
fn merge_two_sequences_concatenates() {
    let a = list(vec![text("1"), text("2")]);
    let b = list(vec![text("3")]);
    assert_eq!(merge_values(&a, &b), list(vec![text("1"), text("2"), text("3")]));
}

#[test]
fn merge_scalar_into_sequence_appends() {
    let a = list(vec![text("1")]);
    assert_eq!(merge_values(&a, &text("2")), list(vec![text("1"), text("2")]));
    assert_eq!(merge_values(&text("0"), &a), list(vec![text("1"), text("0")]));
}

#[test]
fn merge_mapping_into_sequence_appends() {
    let a = list(vec![text("1")]);
    let m = object(vec![("k", text("v"))]);
    assert_eq!(merge_values(&a, &m), list(vec![text("1"), object(vec![("k", text("v"))])]));
}

#[test]
fn merge_scalar_and_mapping_pairs_them() {
    let m = object(vec![("k", text("v"))]);
    assert_eq!(merge_values(&m, &text("x")), list(vec![object(vec![("k", text("v"))]), text("x")]));
}

#[test]
fn merge_mappings_deeply() {
    let a = object(vec![("p", object(vec![("q", text("1"))])), ("r", text("2"))]);
    let b = object(vec![("s", text("3")), ("p", object(vec![("q", text("4")), ("t", text("5"))]))]);
    let expected = object(vec![
        ("p", object(vec![("q", list(vec![text("1"), text("4")])), ("t", text("5"))])),
        ("r", text("2")),
        ("s", text("3")),
    ]);
    assert_eq!(merge_values(&a, &b), expected);
}

#[test]
fn prepare_upsert_absent_and_present() {
    let entries = vec![("x".to_string(), text("1"))];
    assert_eq!(prepare_upsert(&entries, &"y".to_string(), text("2")), text("2"));
    assert_eq!(
        prepare_upsert(&entries, &"x".to_string(), text("2")),
        list(vec![text("1"), text("2")])
    );
}

#[test]
fn upsert_entry_replaces_in_place() {
    let mut entries = vec![("x".to_string(), text("1")), ("y".to_string(), text("2"))];
    upsert_entry(&mut entries, "x".to_string(), text("3"));
    upsert_entry(&mut entries, "z".to_string(), text("4"));
    assert_eq!(
        entries,
        vec![
            ("x".to_string(), list(vec![text("1"), text("3")])),
            ("y".to_string(), text("2")),
            ("z".to_string(), text("4")),
        ]
    );
}

#[test]
fn deep_copy_is_equal() {
    let v = object(vec![("a", list(vec![text("1"), object(vec![("b", text("2"))])]))]);
    assert_eq!(v.deep_copy(), v);
}

#[test]
fn file_name_without_extension() {
    assert_eq!(get_file_name("data/people.csv"), Some("people"));
    assert_eq!(get_file_name("archive.tar.gz"), Some("archive.tar"));
    assert_eq!(get_file_name(""), None);
}

#[test]
fn empty_separator_does_not_split() {
    let (k, v) = dimensional_converter("a.b".to_string(), "1".to_string(), &Some(""));
    assert_eq!(k, "a.b");
    assert_eq!(v, text("1"));
    let headers = strings(&["a.b", "a.b", "c"]);
    let doc = row_to_object(&headers, strings(&["1", "2", "3"]), Some("")).unwrap();
    assert_eq!(doc, object(vec![("a.b", list(vec![text("1"), text("2")])), ("c", text("3"))]));
}

#[test]
fn no_separator_single_and_repeated_headers() {
    let headers = strings(&["x", "y", "x", "z", "x"]);
    let doc = row_to_object(&headers, strings(&["1", "2", "3", "4", "5"]), None).unwrap();
    assert_eq!(
        doc,
        object(vec![
            ("x", list(vec![text("1"), text("3"), text("5")])),
            ("y", text("2")),
            ("z", text("4")),
        ])
    );
}
