use json_diff_checker::json_diff::{
    compare, deep_equal, encode_path, get_all_items, get_value_by_path, get_value_type,
    is_parent_missing, is_well_formed, parse_path, same_type, values_equal, CompareOptions,
    Number, PathPart, Statistics, Value,
};

fn number(n: &serde_json::Number) -> Number {
    if let Some(u) = n.as_u64() {
        Number::PosInt(u)
    } else if let Some(i) = n.as_i64() {
        Number::NegInt(i)
    } else {
        Number::Float(n.as_f64().unwrap().to_bits())
    }
}

fn convert(value: &serde_json::Value) -> Value {
    match value {
        serde_json::Value::Null => Value::Null,
        serde_json::Value::Bool(b) => Value::Bool(*b),
        serde_json::Value::Number(n) => Value::Number(number(n)),
        serde_json::Value::String(s) => Value::String(s.clone()),
        serde_json::Value::Array(items) => Value::Array(items.iter().map(convert).collect()),
        serde_json::Value::Object(members) => Value::Object(
            members
                .iter()
                .map(|(key, member)| (key.clone(), convert(member)))
                .collect(),
        ),
    }
}

fn document(text: &str) -> Value {
    convert(&serde_json::from_str::<serde_json::Value>(text).unwrap())
}

fn flatten(text: &str) -> Vec<(String, Value)> {
    get_all_items(&document(text), String::new())
}

fn paths(items: &[(String, Value)]) -> Vec<String> {
    items.iter().map(|(path, _)| path.clone()).collect()
}

fn whole(n: u64) -> Value {
    Value::Number(Number::PosInt(n))
}

fn text(s: &str) -> Value {
    Value::String(s.to_string())
}

fn options(check_values: bool, type_only: bool, suppress_nested_missing: bool) -> CompareOptions {
    CompareOptions {
        check_values,
        type_only,
        suppress_nested_missing,
    }
}

const SAMPLE: &str = r#"{
    "name": "sample",
    "version": 3,
    "ratio": 0.25,
    "tags": ["a", "b", ["c", {"d": null}]],
    "nested": {"x": {"y": {"z": true}}, "list": [], "empty": {}},
    "a.b": {"c d": 1, "e[0]": [1, 2]},
    "say \"hi\"": -7,
    "back\\slash": [false]
}"#;

#[test]
fn array_items_are_addressed_by_position() {
    let items = flatten(r#"{"arr":[10,20]}"#);
    assert_eq!(items.len(), 3);
    assert_eq!(items[0].0, "arr");
    assert_eq!(items[0].1, Value::Array(vec![whole(10), whole(20)]));
    assert_eq!(items[1].0, "arr[0]");
    assert_eq!(items[1].1, whole(10));
    assert_eq!(items[2].0, "arr[1]");
    assert_eq!(items[2].1, whole(20));
}

#[test]
fn key_with_a_dot_is_escaped() {
    let items = flatten(r#"{"a.b": 1}"#);
    assert_eq!(items.len(), 1);
    assert_eq!(items[0].0, "[\"a.b\"]");
    assert_eq!(items[0].1, whole(1));
    assert_eq!(
        parse_path("[\"a.b\"]"),
        vec![PathPart::Key("a.b".to_string())]
    );
}

#[test]
fn nodes_come_depth_first_in_document_order() {
    let items = flatten(r#"{"b":{"d":1,"c":[true,{"e":null}]},"a":"x"}"#);
    assert_eq!(
        paths(&items),
        vec!["b", "b.d", "b.c", "b.c[0]", "b.c[1]", "b.c[1].e", "a"]
    );
    assert_eq!(items[3].1, Value::Bool(true));
    assert_eq!(items[5].1, Value::Null);
    assert_eq!(items[6].1, text("x"));
    assert_eq!(items[4].1, document(r#"{"e":null}"#));
}

#[test]
fn root_array_is_flattened_from_the_empty_path() {
    let items = flatten(r#"[1,[2,3],{"k":4}]"#);
    assert_eq!(
        paths(&items),
        vec!["[0]", "[1]", "[1][0]", "[1][1]", "[2]", "[2].k"]
    );
}

#[test]
fn scalar_root_has_no_entries() {
    assert!(flatten("1").is_empty());
    assert!(flatten("null").is_empty());
    assert!(flatten("\"text\"").is_empty());
    assert!(flatten("{}").is_empty());
    assert!(flatten("[]").is_empty());
}

#[test]
fn scalar_at_a_path_is_its_own_entry() {
    let items = get_all_items(&whole(5), "a.b".to_string());
    assert_eq!(items.len(), 1);
    assert_eq!(items[0].0, "a.b");
    assert_eq!(items[0].1, whole(5));
}

#[test]
fn container_at_a_path_is_flattened_below_it() {
    let items = get_all_items(&document(r#"{"x":[1],"y.z":2}"#), "p".to_string());
    assert_eq!(paths(&items), vec!["p.x", "p.x[0]", "p[\"y.z\"]"]);
}

#[test]
fn escaped_keys_in_nested_positions() {
    let items = flatten(r#"{"a":{"b.c":{"d":1}},"x y":{"[":2,"q\"r":3}}"#);
    assert_eq!(
        paths(&items),
        vec![
            "a",
            "a[\"b.c\"]",
            "a[\"b.c\"].d",
            "x y",
            "x y[\"[\"]",
            "x y[\"q\\\"r\"]"
        ]
    );
}

#[test]
fn empty_key_adds_only_a_dot_below_the_root() {
    let items = flatten(r#"{"":{"b":1},"a":{"":2}}"#);
    assert_eq!(paths(&items), vec!["", ".b", "a", "a."]);
}

#[test]
fn one_entry_for_every_node_below_the_root() {
    let items = flatten(SAMPLE);
    assert_eq!(items.len(), 24);
    let mut seen = paths(&items);
    seen.sort();
    seen.dedup();
    assert_eq!(seen.len(), 24);
    assert!(items.iter().all(|(path, _)| !path.is_empty()));
}

#[test]
fn flattened_paths_are_stable() {
    let value = document(SAMPLE);
    for (path, _) in get_all_items(&value, String::new()) {
        assert_eq!(encode_path(&parse_path(&path)), path);
    }
}

#[test]
fn lookup_finds_what_was_flattened() {
    let value = document(SAMPLE);
    assert!(is_well_formed(&value));
    let items = get_all_items(&value, String::new());
    for (path, recorded) in &items {
        let found = get_value_by_path(&value, path);
        assert_eq!(found, Some(recorded), "{}", path);
    }
}

#[test]
fn lookup_follows_keys_and_positions() {
    let value = document(r#"{"a":[{"b":1},{"b":2}],"0":"zero"}"#);
    assert_eq!(get_value_by_path(&value, "a[1].b"), Some(&whole(2)));
    assert_eq!(get_value_by_path(&value, "0"), Some(&text("zero")));
    assert_eq!(get_value_by_path(&value, ""), Some(&value));
    assert_eq!(get_value_by_path(&value, "a[2]"), None);
    assert_eq!(get_value_by_path(&value, "a.b"), None);
    assert_eq!(get_value_by_path(&value, "[0]"), None);
    assert_eq!(get_value_by_path(&value, "a[0].b.c"), None);
    assert_eq!(get_value_by_path(&value, "missing"), None);
}

#[test]
fn lookup_agrees_with_the_parsed_document() {
    let parsed: serde_json::Value = serde_json::from_str(SAMPLE).unwrap();
    let value = convert(&parsed);
    for path in [
        "name",
        "tags[2][1].d",
        "tags[3]",
        "nested.x.y.z",
        "nested.list[0]",
        "[\"a.b\"][\"c d\"]",
        "[\"a.b\"][\"e[0]\"][1]",
        "[\"say \\\"hi\\\"\"]",
        "back\\slash[0]",
        "nested.x[0]",
        "tags.x",
    ] {
        let mut expected = Some(&parsed);
        for part in parse_path(path) {
            expected = match (expected, part) {
                (Some(current), PathPart::Key(key)) => current.get(key.as_str()),
                (Some(current), PathPart::Index(index)) => current.get(index),
                (None, _) => None,
            };
        }
        assert_eq!(
            get_value_by_path(&value, path).cloned(),
            expected.map(convert),
            "{}",
            path
        );
    }
}

#[test]
fn type_names() {
    assert_eq!(get_value_type(&Value::Null), "null");
    assert_eq!(get_value_type(&Value::Bool(true)), "boolean");
    assert_eq!(get_value_type(&whole(1)), "number");
    assert_eq!(get_value_type(&Value::Number(Number::Float(0))), "number");
    assert_eq!(get_value_type(&text("s")), "string");
    assert_eq!(get_value_type(&Value::Array(vec![])), "array");
    assert_eq!(get_value_type(&Value::Object(vec![])), "object");
}

#[test]
fn same_type_ignores_the_content() {
    let values = vec![
        Value::Null,
        Value::Bool(false),
        whole(1),
        text("1"),
        Value::Array(vec![whole(1)]),
        Value::Object(vec![("k".to_string(), whole(1))]),
    ];
    for (i, a) in values.iter().enumerate() {
        for (j, b) in values.iter().enumerate() {
            assert_eq!(same_type(a, b), i == j);
        }
    }
    assert!(same_type(&Value::Bool(true), &Value::Bool(false)));
    assert!(same_type(&whole(1), &Value::Number(Number::NegInt(-1))));
    assert!(same_type(&Value::Array(vec![]), &document("[1,2,3]")));
    assert!(same_type(&Value::Object(vec![]), &document(r#"{"a":1}"#)));
}

#[test]
fn every_value_equals_itself() {
    let value = document(SAMPLE);
    assert!(values_equal(&value, &value));
    assert!(deep_equal(&value, &value));
    for (_, node) in get_all_items(&value, String::new()) {
        assert!(values_equal(&node, &node));
    }
    for scalar in ["1", "-1", "0.5", "1e300", "18446744073709551615", "null", "\"x\""] {
        let value = document(scalar);
        assert!(values_equal(&value, &value), "{}", scalar);
    }
}

#[test]
fn objects_are_equal_whatever_the_order_of_their_members() {
    let a = document(r#"{"a":1,"b":[1,2],"c":{"d":null}}"#);
    let b = document(r#"{"c":{"d":null},"b":[1,2],"a":1}"#);
    assert!(values_equal(&a, &b));
    assert!(a == b);
    assert!(!values_equal(&a, &document(r#"{"a":1,"b":[1,2]}"#)));
    assert!(!values_equal(&a, &document(r#"{"a":1,"b":[1,2],"x":{"d":null}}"#)));
    assert!(!values_equal(&a, &document(r#"{"a":1,"b":[1,2],"c":{"d":0}}"#)));
}

#[test]
fn arrays_are_equal_only_in_the_same_order() {
    assert!(values_equal(&document("[1,2,3]"), &document("[1,2,3]")));
    assert!(!values_equal(&document("[1,2,3]"), &document("[1,3,2]")));
    assert!(!values_equal(&document("[1,2,3]"), &document("[1,2]")));
    assert!(!values_equal(&document("[]"), &document("{}")));
}

#[test]
fn numbers_inside_containers_are_compared_in_their_form() {
    assert!(values_equal(&document("1"), &document("1.0")));
    assert!(!values_equal(&document("[1]"), &document("[1.0]")));
    assert!(!values_equal(&document(r#"{"a":1}"#), &document(r#"{"a":1.0}"#)));
    assert!(values_equal(&document("[0.0]"), &document("[-0.0]")));
    assert!(values_equal(&document("[1.5]"), &document("[1.5]")));
}

#[test]
fn values_of_different_types_are_not_equal() {
    assert!(!values_equal(&document("1"), &document("\"1\"")));
    assert!(!values_equal(&document("null"), &document("false")));
    assert!(!values_equal(&document("0"), &document("null")));
    assert!(values_equal(&document("\"a\""), &document("\"a\"")));
    assert!(!values_equal(&document("\"a\""), &document("\"b\"")));
    assert!(!values_equal(&document("true"), &document("false")));
}

#[test]
fn equality_agrees_with_the_parsed_documents() {
    let texts = [
        "null",
        "true",
        "1",
        "1.0",
        "-1",
        "1e-20",
        "2e-20",
        "0.1",
        "0.30000000000000004",
        "0.3",
        "9007199254740993",
        "9007199254740992",
        "9007199254740992.0",
        "\"1\"",
        "[1,2]",
        "[1.0,2]",
        "[2,1]",
        r#"{"a":1,"b":2}"#,
        r#"{"b":2,"a":1}"#,
        r#"{"a":1,"b":2.0}"#,
        r#"{"a":[{"b":null}]}"#,
        r#"{"a":[{"b":null}],"c":1}"#,
    ];
    for a in texts {
        for b in texts {
            let x: serde_json::Value = serde_json::from_str(a).unwrap();
            let y: serde_json::Value = serde_json::from_str(b).unwrap();
            let expected = match (&x, &y) {
                (serde_json::Value::Number(m), serde_json::Value::Number(n)) => {
                    (m.as_f64().unwrap() - n.as_f64().unwrap()).abs() < f64::EPSILON
                }
                _ => x == y,
            };
            assert_eq!(values_equal(&convert(&x), &convert(&y)), expected, "{} and {}", a, b);
            assert_eq!(deep_equal(&convert(&x), &convert(&y)), x == y, "{} and {}", a, b);
        }
    }
}

#[test]
fn well_formed_values_hold_no_key_twice() {
    assert!(is_well_formed(&document(SAMPLE)));
    let twice = Value::Object(vec![
        ("a".to_string(), whole(1)),
        ("b".to_string(), whole(2)),
        ("a".to_string(), whole(3)),
    ]);
    assert!(!is_well_formed(&twice));
    assert!(!is_well_formed(&Value::Array(vec![Value::Null, twice])));
    assert!(!is_well_formed(&Value::Array(vec![Value::Number(
        Number::NegInt(1)
    )])));
    assert!(!is_well_formed(&Value::Object(vec![(
        "x".to_string(),
        Value::Number(Number::Float(f64::NAN.to_bits()))
    )])));
}

#[test]
fn strict_prefix_among_the_missing_paths() {
    let missing = vec!["a".to_string(), "b.c".to_string()];
    assert!(is_parent_missing(&missing, "a.b"));
    assert!(is_parent_missing(&missing, "ab"));
    assert!(is_parent_missing(&missing, "b.c[0]"));
    assert!(!is_parent_missing(&missing, "a"));
    assert!(!is_parent_missing(&missing, "b"));
    assert!(!is_parent_missing(&missing, "b.d"));
    assert!(!is_parent_missing(&missing, ""));
    assert!(!is_parent_missing(&[], "a"));
    assert!(is_parent_missing(&["".to_string()], "a"));
    assert!(is_parent_missing(&["é".to_string()], "éa"));
    assert!(!is_parent_missing(&["é".to_string()], "eé"));
}

#[test]
fn nested_missing_paths_are_suppressed() {
    let base = flatten(r#"{"a":{"b":1,"c":2}}"#);
    assert_eq!(paths(&base), vec!["a", "a.b", "a.c"]);
    let other = document(r#"{"z":0}"#);
    let suppressed = compare(&base, &other, &options(false, false, true));
    assert_eq!(suppressed.missing_paths, vec!["a"]);
    assert_eq!(suppressed.statistics.missing_count, 1);
    assert_eq!(suppressed.statistics.match_count, 2);
    let all = compare(&base, &other, &options(false, false, false));
    assert_eq!(all.missing_paths, vec!["a", "a.b", "a.c"]);
    assert_eq!(all.statistics.missing_count, 3);
    assert_eq!(all.statistics.match_count, 0);
}

#[test]
fn suppression_goes_by_the_paths_reported_before() {
    let base = vec![
        ("a.b".to_string(), whole(1)),
        ("a".to_string(), whole(2)),
        ("a.c".to_string(), whole(3)),
        ("ab".to_string(), whole(4)),
    ];
    let result = compare(&base, &document("{}"), &options(false, false, true));
    assert_eq!(result.missing_paths, vec!["a.b", "a"]);
}

#[test]
fn type_only_reports_type_mismatches() {
    let base = flatten(r#"{"x": 1}"#);
    let other = document(r#"{"x": "1"}"#);
    let result = compare(&base, &other, &options(true, true, false));
    assert!(result.missing_paths.is_empty());
    assert!(result.different_values.is_empty());
    assert_eq!(result.type_mismatches.len(), 1);
    let mismatch = &result.type_mismatches[0];
    assert_eq!(mismatch.path, "x");
    assert_eq!(mismatch.base_type, "number");
    assert_eq!(mismatch.compare_type, "string");
    assert_eq!(mismatch.base_value, whole(1));
    assert_eq!(mismatch.compare_value, text("1"));
    assert_eq!(
        result.statistics,
        Statistics {
            total_paths_checked: 1,
            missing_count: 0,
            different_count: 0,
            type_mismatch_count: 1,
            match_count: 1,
        }
    );
}

#[test]
fn type_only_ignores_values_of_the_same_type() {
    let base = flatten(r#"{"x": {"y": [1, 2]}, "z": "a"}"#);
    let other = document(r#"{"x": {"y": [3]}, "z": "b"}"#);
    let result = compare(&base, &other, &options(true, true, false));
    assert_eq!(result.missing_paths, vec!["x.y[1]"]);
    assert!(result.different_values.is_empty());
    assert!(result.type_mismatches.is_empty());
    assert_eq!(result.statistics.match_count, 4);
}

#[test]
fn full_comparison_reports_value_differences() {
    let base = flatten(r#"{"a":1,"b":{"c":2}}"#);
    let other = document(r#"{"a":1,"b":{"c":3}}"#);
    let result = compare(&base, &other, &options(true, false, false));
    assert!(result.missing_paths.is_empty());
    assert!(result.type_mismatches.is_empty());
    assert_eq!(result.different_values.len(), 2);
    assert_eq!(result.different_values[0].path, "b");
    assert_eq!(result.different_values[1].path, "b.c");
    assert_eq!(result.different_values[1].base_value, whole(2));
    assert_eq!(result.different_values[1].compare_value, whole(3));
    assert_eq!(result.statistics.total_paths_checked, 3);
    assert_eq!(result.statistics.different_count, 2);
    assert_eq!(result.statistics.match_count, 1);
}

#[test]
fn full_comparison_of_leaves() {
    let base: Vec<(String, Value)> = flatten(r#"{"a":1,"b":{"c":2}}"#)
        .into_iter()
        .filter(|(_, value)| !matches!(value, Value::Object(_) | Value::Array(_)))
        .collect();
    let other = document(r#"{"a":1,"b":{"c":3}}"#);
    let result = compare(&base, &other, &options(true, false, false));
    assert!(result.missing_paths.is_empty());
    assert_eq!(result.different_values.len(), 1);
    assert_eq!(result.different_values[0].path, "b.c");
    assert_eq!(result.statistics.total_paths_checked, 2);
    assert_eq!(result.statistics.match_count, 1);
}

#[test]
fn structure_only_reports_missing_paths_alone() {
    let base = flatten(r#"{"a":1,"b":{"c":2},"d":[1]}"#);
    let other = document(r#"{"a":"x","b":{"c":null},"d":[]}"#);
    let result = compare(&base, &other, &options(false, false, false));
    assert_eq!(result.missing_paths, vec!["d[0]"]);
    assert!(result.different_values.is_empty());
    assert!(result.type_mismatches.is_empty());
    assert_eq!(result.statistics.total_paths_checked, 5);
    assert_eq!(result.statistics.match_count, 4);
    let ignored = compare(&base, &other, &options(false, true, false));
    assert!(ignored.type_mismatches.is_empty());
    assert_eq!(ignored.missing_paths, vec!["d[0]"]);
}

#[test]
fn document_compared_with_itself_matches_everywhere() {
    let value = document(SAMPLE);
    let base = get_all_items(&value, String::new());
    for (check_values, type_only) in [(false, false), (true, false), (true, true)] {
        let result = compare(&base, &value, &options(check_values, type_only, true));
        assert!(result.missing_paths.is_empty());
        assert!(result.different_values.is_empty());
        assert!(result.type_mismatches.is_empty());
        assert_eq!(result.statistics.total_paths_checked, base.len());
        assert_eq!(result.statistics.match_count, base.len());
    }
}

#[test]
fn comparison_of_no_entries() {
    let result = compare(&[], &document("{}"), &options(true, false, true));
    assert_eq!(
        result.statistics,
        Statistics {
            total_paths_checked: 0,
            missing_count: 0,
            different_count: 0,
            type_mismatch_count: 0,
            match_count: 0,
        }
    );
}

#[test]
fn numbers_within_tolerance_are_no_difference() {
    let base = flatten(r#"{"a":1,"b":0.1,"c":1e-20}"#);
    let other = document(r#"{"a":1.0,"b":0.10000000000000000001,"c":3e-20}"#);
    let result = compare(&base, &other, &options(true, false, false));
    assert!(result.different_values.is_empty());
    assert_eq!(result.statistics.match_count, 3);
}
