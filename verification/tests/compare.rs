use json_diff::compare_jsons;
use json_diff::ds::key_node::KeyNode;
use json_diff::ds::mismatch::Mismatch;
use json_diff::enums::Error;
use json_diff::json::JsonVal;

fn node(pairs: Vec<(&str, KeyNode)>) -> KeyNode {
    KeyNode::Node(pairs.into_iter().map(|(k, v)| (String::from(k), v)).collect())
}

#[test]
fn test_arrays_sorted_simple() {
    let data1 = r#"["a","b","c"]"#;
    let data2 = r#"["b","c","a"]"#;
    let diff = compare_jsons(data1, data2, true).unwrap();
    assert!(diff.is_empty());
}

#[test]
fn test_arrays_sorted_objects() {
    let data1 = r#"[{"c": {"d": "e"} },"b","c"]"#;
    let data2 = r#"["b","c",{"c": {"d": "e"} }]"#;
    let diff = compare_jsons(data1, data2, true).unwrap();
    assert!(diff.is_empty());
}

#[test]
fn test_arrays_deep_sorted_objects() {
    let data1 = r#"[{"c": ["d","e"] },"b","c"]"#;
    let data2 = r#"["b","c",{"c": ["e", "d"] }]"#;
    let diff = compare_jsons(data1, data2, true).unwrap();
    assert!(diff.is_empty());
}

#[test]
fn test_arrays_deep_sorted_objects_with_arrays() {
    let data1 = r#"[{"a": [{"b": ["3", "1"]}] }, {"a": [{"b": ["2", "3"]}] }]"#;
    let data2 = r#"[{"a": [{"b": ["2", "3"]}] }, {"a": [{"b": ["1", "3"]}] }]"#;
    let diff = compare_jsons(data1, data2, true).unwrap();
    assert!(diff.is_empty());
}

#[test]
fn test_arrays_deep_sorted_objects_with_outer_diff() {
    let data1 = r#"[{"c": ["d","e"] },"b"]"#;
    let data2 = r#"["b","c",{"c": ["e", "d"] }]"#;
    let diff = compare_jsons(data1, data2, true).unwrap();
    assert!(!diff.is_empty());
    let insertions = diff.right_only_keys.absolute_keys_to_vec(None);
    assert_eq!(insertions.len(), 1);
    assert_eq!(insertions.first().unwrap().display_string(), r#"[l: 1]-"c""#);
}

#[test]
fn test_arrays_deep_sorted_objects_with_inner_diff() {
    let data1 = r#"["a",{"c": ["d","e", "f"] },"b"]"#;
    let data2 = r#"["b",{"c": ["e","d"] },"a"]"#;
    let diff = compare_jsons(data1, data2, true).unwrap();
    assert!(!diff.is_empty());
    let deletions = diff.left_only_keys.absolute_keys_to_vec(None);

    assert_eq!(deletions.len(), 1);
    assert_eq!(
        deletions.first().unwrap().display_string(),
        r#"[l: 2]->c->[l: 2]-"f""#
    );
}

#[test]
fn test_arrays_deep_sorted_objects_with_inner_diff_mutation() {
    let data1 = r#"["a",{"c": ["d", "f"] },"b"]"#;
    let data2 = r#"["b",{"c": ["e","d"] },"a"]"#;
    let diff = compare_jsons(data1, data2, true).unwrap();
    assert!(!diff.is_empty());
    let diffs = diff.keys_in_both.absolute_keys_to_vec(None);

    assert_eq!(diffs.len(), 1);
    assert_eq!(
        diffs.first().unwrap().display_string(),
        r#"[l: 2]->c->[l: 1]->{"f"!="e"}"#
    );
}

#[test]
fn test_arrays_simple_diff() {
    let data1 = r#"["a","b","c"]"#;
    let data2 = r#"["a","b","d"]"#;
    let diff = compare_jsons(data1, data2, false).unwrap();
    assert_eq!(diff.left_only_keys, KeyNode::Nil);
    assert_eq!(diff.right_only_keys, KeyNode::Nil);
    let diff = diff.keys_in_both.absolute_keys_to_vec(None);
    assert_eq!(diff.len(), 1);
    assert_eq!(diff.first().unwrap().display_string(), r#"[l: 2]->{"c"!="d"}"#);
}

#[test]
fn test_arrays_more_complex_diff() {
    let data1 = r#"["a","b","c"]"#;
    let data2 = r#"["a","a","b","d"]"#;
    let diff = compare_jsons(data1, data2, false).unwrap();

    let changes_diff = diff.keys_in_both.absolute_keys_to_vec(None);
    assert_eq!(diff.left_only_keys, KeyNode::Nil);

    assert_eq!(changes_diff.len(), 1);
    assert_eq!(
        changes_diff.first().unwrap().display_string(),
        r#"[l: 2]->{"c"!="d"}"#
    );
    let insertions = diff.right_only_keys.absolute_keys_to_vec(None);
    assert_eq!(insertions.len(), 1);
    assert_eq!(insertions.first().unwrap().display_string(), r#"[l: 0]-"a""#);
}

#[test]
fn test_arrays_extra_left() {
    let data1 = r#"["a","b","c"]"#;
    let data2 = r#"["a","b"]"#;
    let diff = compare_jsons(data1, data2, false).unwrap();

    let diffs = diff.left_only_keys.absolute_keys_to_vec(None);
    assert_eq!(diffs.len(), 1);
    assert_eq!(diffs.first().unwrap().display_string(), r#"[l: 2]-"c""#);
    assert_eq!(diff.keys_in_both, KeyNode::Nil);
    assert_eq!(diff.right_only_keys, KeyNode::Nil);
}

#[test]
fn test_arrays_extra_right() {
    let data1 = r#"["a","b"]"#;
    let data2 = r#"["a","b","c"]"#;
    let diff = compare_jsons(data1, data2, false).unwrap();

    let diffs = diff.right_only_keys.absolute_keys_to_vec(None);
    assert_eq!(diffs.len(), 1);
    assert_eq!(diffs.first().unwrap().display_string(), r#"[l: 2]-"c""#);
    assert_eq!(diff.keys_in_both, KeyNode::Nil);
    assert_eq!(diff.left_only_keys, KeyNode::Nil);
}

#[test]
fn long_insertion_modification() {
    let data1 = r#"["a","b","a"]"#;
    let data2 = r#"["a","c","c","c","a"]"#;
    let diff = compare_jsons(data1, data2, false).unwrap();
    let diffs = diff.keys_in_both.absolute_keys_to_vec(None);

    assert_eq!(diffs.len(), 3);
    let diffs: Vec<String> = diffs.into_iter().map(|d| d.display_string()).collect();
    assert!(diffs.contains(&r#"[l: 3]->{null!="c"}"#.to_string()));
    assert!(diffs.contains(&r#"[l: 1]->{"b"!="c"}"#.to_string()));
    assert!(diffs.contains(&r#"[l: 2]->{"a"!="c"}"#.to_string()));
    assert_eq!(diff.right_only_keys, KeyNode::Nil);
    assert_eq!(diff.left_only_keys, KeyNode::Nil);
}

#[test]
fn test_arrays_object_extra() {
    let data1 = r#"["a","b"]"#;
    let data2 = r#"["a","b", {"c": {"d": "e"} }]"#;
    let diff = compare_jsons(data1, data2, false).unwrap();

    let diffs = diff.right_only_keys.absolute_keys_to_vec(None);
    assert_eq!(diffs.len(), 1);
    assert_eq!(
        diffs.first().unwrap().display_string(),
        r#"[l: 2]-{"c":{"d":"e"}}"#
    );
    assert_eq!(diff.keys_in_both, KeyNode::Nil);
    assert_eq!(diff.left_only_keys, KeyNode::Nil);
}

#[test]
fn process_nested_diff() {
    let data1 = r#"{
        "a":"b",
        "b":{
            "c":{
                "d":true,
                "e":5,
                "f":9,
                "h":{
                    "i":true,
                    "j":false
                }
            }
        }
    }"#;
    let data2 = r#"{
        "a":"b",
        "b":{
            "c":{
                "d":true,
                "e":6,
                "g":0,
                "h":{
                    "i":false,
                    "k":false
                }
            }
        }
    }"#;

    let expected_left = node(vec![(
        "b",
        node(vec![(
            "c",
            node(vec![
                ("f", KeyNode::Nil),
                ("h", node(vec![("j", KeyNode::Nil)])),
            ]),
        )]),
    )]);
    let expected_right = node(vec![(
        "b",
        node(vec![(
            "c",
            node(vec![
                ("g", KeyNode::Nil),
                ("h", node(vec![("k", KeyNode::Nil)])),
            ]),
        )]),
    )]);
    let expected_uneq = node(vec![(
        "b",
        node(vec![(
            "c",
            node(vec![
                ("e", KeyNode::Value(JsonVal::Int(5), JsonVal::Int(6))),
                (
                    "h",
                    node(vec![(
                        "i",
                        KeyNode::Value(JsonVal::Bool(true), JsonVal::Bool(false)),
                    )]),
                ),
            ]),
        )]),
    )]);
    let expected = Mismatch::new(expected_left, expected_right, expected_uneq);

    let mismatch = compare_jsons(data1, data2, false).unwrap();
    assert_eq!(mismatch, expected, "Diff was incorrect.");
}

#[test]
fn process_no_diff() {
    let data1 = r#"{
        "a":"b",
        "b":{
            "c":{
                "d":true,
                "e":5,
                "f":9,
                "h":{
                    "i":true,
                    "j":false
                }
            }
        }
    }"#;
    let data2 = r#"{
        "a":"b",
        "b":{
            "c":{
                "d":true,
                "e":5,
                "f":9,
                "h":{
                    "i":true,
                    "j":false
                }
            }
        }
    }"#;

    assert_eq!(
        compare_jsons(data1, data2, false).unwrap(),
        Mismatch::new(KeyNode::Nil, KeyNode::Nil, KeyNode::Nil)
    );
}

#[test]
fn process_no_json() {
    let data1 = r#"{}"#;
    let data2 = r#"{}"#;

    assert_eq!(
        compare_jsons(data1, data2, false).unwrap(),
        Mismatch::new(KeyNode::Nil, KeyNode::Nil, KeyNode::Nil)
    );
}

#[test]
fn process_parse_err_source_one() {
    let invalid_json1 = r#"{invalid: json}"#;
    let valid_json2 = r#"{"a":"b"}"#;
    match compare_jsons(invalid_json1, valid_json2, false) {
        Ok(_) => panic!("This shouldn't be an Ok"),
        Err(err) => {
            matches!(err, Error::JSON(_));
        }
    };
}

#[test]
fn process_parse_err_source_two() {
    let valid_json1 = r#"{"a":"b"}"#;
    let invalid_json2 = r#"{invalid: json}"#;
    match compare_jsons(valid_json1, invalid_json2, false) {
        Ok(_) => panic!("This shouldn't be an Ok"),
        Err(err) => {
            matches!(err, Error::JSON(_));
        }
    };
}
