use json_diff::compare_jsons;
use json_diff::ds::key_node::{truncate, KeyNode};
use json_diff::ds::mismatch::Mismatch;
use json_diff::enums::{DiffType, Error, ValueType};
use json_diff::json::{deep_eq, JsonVal};
use json_diff::order::{cmp_values, deep_canon};
use json_diff::render::render_json;

#[test]
fn empty_diffs() {
    let empty = Mismatch::empty();
    let all_diffs = empty.all_diffs();
    assert!(all_diffs.is_empty());
}

#[test]
fn render_scalars() {
    assert_eq!(render_json(&JsonVal::Null), "null");
    assert_eq!(render_json(&JsonVal::Bool(true)), "true");
    assert_eq!(render_json(&JsonVal::Bool(false)), "false");
    assert_eq!(render_json(&JsonVal::Int(0)), "0");
    assert_eq!(render_json(&JsonVal::Int(1234567890)), "1234567890");
    assert_eq!(render_json(&JsonVal::Int(-5)), "-5");
    assert_eq!(
        render_json(&JsonVal::Int(i64::MIN)),
        "-9223372036854775808"
    );
    assert_eq!(render_json(&JsonVal::Str(String::from("e"))), r#""e""#);
}

#[test]
fn render_composites() {
    let inner = JsonVal::Obj(vec![(String::from("d"), JsonVal::Str(String::from("e")))]);
    let outer = JsonVal::Obj(vec![(String::from("c"), inner)]);
    assert_eq!(render_json(&outer), r#"{"c":{"d":"e"}}"#);
    let arr = JsonVal::Arr(vec![JsonVal::Int(1), JsonVal::Null, JsonVal::Bool(false)]);
    assert_eq!(render_json(&arr), "[1,null,false]");
    assert_eq!(render_json(&JsonVal::Arr(Vec::new())), "[]");
    assert_eq!(render_json(&JsonVal::Obj(Vec::new())), "{}");
}

#[test]
fn render_escapes() {
    let v = JsonVal::Str(String::from("a\"b\\c\nd"));
    assert_eq!(render_json(&v), "\"a\\\"b\\\\c\\nd\"");
    let ctl = JsonVal::Str(String::from("\u{1}"));
    assert_eq!(render_json(&ctl), "\"\\u0001\"");
}

#[test]
fn truncate_cuts_long_text() {
    assert_eq!(truncate("abcdef", 3), "abc//SNIP//");
    assert_eq!(truncate("ab", 5), "ab");
    assert_eq!(truncate("abc", 3), "abc");
}

#[test]
fn truncation_applies_to_entries() {
    let diff = compare_jsons(r#"["abcdef"]"#, r#"["abcxyz"]"#, false).unwrap();
    let entries = diff.all_diffs_trunc(Some(5));
    assert_eq!(entries.len(), 1);
    let (kind, entry) = &entries[0];
    assert_eq!(*kind, DiffType::Mismatch);
    assert_eq!(entry.display_string(), r#"[l: 0]->{"abcd//SNIP//!="abcx//SNIP//}"#);
}

#[test]
fn classification_headings() {
    assert_eq!(DiffType::RootMismatch.display_string(), "Mismatch at root.");
    assert_eq!(DiffType::LeftExtra.display_string(), "Extra on left");
    assert_eq!(DiffType::RightExtra.display_string(), "Extra on right");
    assert_eq!(DiffType::Mismatch.display_string(), "Mismatched");
}

#[test]
fn entry_accessors() {
    let key_entry = ValueType::new_key(String::from("a->b"));
    assert_eq!(key_entry.get_key(), "a->b");
    assert_eq!(key_entry.display_string(), "a->b");
    let value_entry = ValueType::new_value(
        String::from("p"),
        String::from("1"),
        String::from("2"),
    );
    assert_eq!(value_entry.get_key(), "p");
    assert_eq!(value_entry.display_string(), "p->{1!=2}");
}

#[test]
fn root_scalar_mismatch() {
    let diff = compare_jsons("1", "2", false).unwrap();
    assert!(!diff.is_empty());
    let entries = diff.all_diffs();
    assert_eq!(entries.len(), 1);
    assert_eq!(entries[0].0, DiffType::Mismatch);
    assert_eq!(entries[0].1.display_string(), "{1!=2}");
}

#[test]
fn shape_mismatch_is_whole_value() {
    let diff = compare_jsons(r#"{"a":1}"#, r#"[1]"#, false).unwrap();
    let entries = diff.all_diffs();
    assert_eq!(entries.len(), 1);
    assert_eq!(entries[0].1.display_string(), r#"{{"a":1}!=[1]}"#);
}

#[test]
fn numbers_compare_by_value_model() {
    assert!(compare_jsons("5", "5", false).unwrap().is_empty());
    assert!(!compare_jsons("5", "5.0", false).unwrap().is_empty());
    assert!(compare_jsons("5.5", "5.5", false).unwrap().is_empty());
}

#[test]
fn flatten_is_pure() {
    let diff = compare_jsons(r#"{"a":1,"b":[1,2]}"#, r#"{"a":2,"c":[2]}"#, false).unwrap();
    let first = diff.all_diffs();
    let second = diff.all_diffs();
    assert_eq!(first, second);
}

#[test]
fn compare_with_self_is_empty() {
    let doc = r#"{"a":[3,1,{"b":null}],"c":"x"}"#;
    assert!(compare_jsons(doc, doc, false).unwrap().is_empty());
    assert!(compare_jsons(doc, doc, true).unwrap().is_empty());
}

#[test]
fn one_sided_object_key() {
    let diff = compare_jsons(r#"{"a":1,"b":2}"#, r#"{"a":1}"#, false).unwrap();
    let left = diff.left_only_keys.absolute_keys_to_vec(None);
    assert_eq!(left.len(), 1);
    assert_eq!(left[0].display_string(), "b");
    assert_eq!(diff.right_only_keys, KeyNode::Nil);
    assert_eq!(diff.keys_in_both, KeyNode::Nil);
}

#[test]
fn parse_errors_name_their_source() {
    match compare_jsons("{bad", "1", false) {
        Err(Error::JSON(m)) => assert!(m.starts_with("parse failed on source 1: ")),
        _ => panic!("expected a parse error naming source 1"),
    }
    match compare_jsons("1", "{bad", false) {
        Err(Error::JSON(m)) => assert!(m.starts_with("parse failed on source 2: ")),
        _ => panic!("expected a parse error naming source 2"),
    }
}

#[test]
fn error_variants_are_distinct() {
    let io = Error::IOError(String::from("missing"));
    let parse = Error::JSON(String::from("bad"));
    assert!(io != parse);
    assert!(matches!(io, Error::IOError(_)));
}

#[test]
fn document_order_is_total() {
    let vals = [
        JsonVal::Null,
        JsonVal::Bool(false),
        JsonVal::Int(1),
        JsonVal::Num(String::from("1.5")),
        JsonVal::Str(String::from("a")),
        JsonVal::Obj(Vec::new()),
        JsonVal::Arr(Vec::new()),
    ];
    for i in 0..vals.len() {
        for j in 0..vals.len() {
            let c = cmp_values(&vals[i], &vals[j]);
            if i < j {
                assert_eq!(c, -1);
            } else if i > j {
                assert_eq!(c, 1);
            } else {
                assert_eq!(c, 0);
            }
        }
    }
}

#[test]
fn canonical_form_sorts_deeply() {
    let v = JsonVal::Arr(vec![
        JsonVal::Arr(vec![JsonVal::Int(2), JsonVal::Int(1)]),
        JsonVal::Int(3),
    ]);
    let c = deep_canon(&v, true);
    let expected = JsonVal::Arr(vec![
        JsonVal::Int(3),
        JsonVal::Arr(vec![JsonVal::Int(1), JsonVal::Int(2)]),
    ]);
    assert!(deep_eq(&c, &expected));
}
