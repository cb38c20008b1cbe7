use genson_rs::batch::document_ranges;
use genson_rs::{get_builder, BuildConfig, JsonValue, SchemaBuilder};

fn to_value(v: &serde_json::Value) -> JsonValue {
    match v {
        serde_json::Value::Null => JsonValue::Null,
        serde_json::Value::Bool(b) => JsonValue::Bool(*b),
        serde_json::Value::Number(n) => {
            if let Some(i) = n.as_i64() {
                JsonValue::Integer(i as i128)
            } else if let Some(u) = n.as_u64() {
                JsonValue::Integer(u as i128)
            } else {
                JsonValue::Real(n.to_string())
            }
        }
        serde_json::Value::String(s) => JsonValue::Str(s.clone()),
        serde_json::Value::Array(items) => JsonValue::Array(items.iter().map(to_value).collect()),
        serde_json::Value::Object(m) => {
            JsonValue::Object(m.iter().map(|(k, v)| (k.clone(), to_value(v))).collect())
        }
    }
}

fn from_value(v: &JsonValue) -> serde_json::Value {
    match v {
        JsonValue::Null => serde_json::Value::Null,
        JsonValue::Bool(b) => serde_json::Value::Bool(*b),
        JsonValue::Integer(i) => {
            if let Ok(x) = i64::try_from(*i) {
                serde_json::Value::from(x)
            } else {
                serde_json::Value::from(u64::try_from(*i).unwrap())
            }
        }
        JsonValue::Real(s) => serde_json::Value::Number(s.parse().unwrap()),
        JsonValue::Str(s) => serde_json::Value::String(s.clone()),
        JsonValue::Array(items) => serde_json::Value::Array(items.iter().map(from_value).collect()),
        JsonValue::Object(entries) => {
            let mut m = serde_json::Map::new();
            for (k, v) in entries {
                m.insert(k.clone(), from_value(v));
            }
            serde_json::Value::Object(m)
        }
    }
}

/// Frames the buffer, parses each document, folds the documents three at a
/// time into builders of their own, reduces those pairwise and merges the
/// result into `builder`.
fn build_json_schema(builder: &mut SchemaBuilder, data: &mut Vec<u8>, config: &BuildConfig) -> serde_json::Value {
    let ranges = document_ranges(data, config);
    let mut partials: Vec<SchemaBuilder> = Vec::new();
    for chunk in ranges.chunks(3) {
        let mut partial = get_builder(None);
        for &(a, b) in chunk {
            let doc: serde_json::Value = serde_json::from_slice(&data[a..b]).unwrap();
            partial.add_object(&to_value(&doc));
        }
        partials.push(partial);
    }
    while partials.len() > 1 {
        let right = partials.pop().unwrap();
        let mut left = partials.pop().unwrap();
        left.add_builder(&right).unwrap();
        partials.push(left);
    }
    if let Some(combined) = partials.pop() {
        builder.add_builder(&combined).unwrap();
    }
    from_value(&builder.to_schema())
}

fn expected(text: &str) -> serde_json::Value {
    serde_json::from_str(text).unwrap()
}

#[test]
fn test_anyof_should_include_all_scalar_field_types() {
    let config = BuildConfig { delimiter: None, ignore_outer_array: false };
    let mut builder = get_builder(None);
    let mut test_object = r#"[{"multi": 1}, {"multi": 2.5}, {"multi": null}, {"multi": "string"}]"#
        .to_string()
        .into_bytes();
    let schema = build_json_schema(&mut builder, &mut test_object, &config);
    let expected_schema = expected(
        r#"{"type": "array", "items": {"type": "object",
            "properties": {"multi": {"type": ["null", "number", "string"]}},
            "required": ["multi"]}}"#,
    );
    assert_eq!(schema, expected_schema);
}

#[test]
fn test_field_should_be_optional_when_not_present_in_all_objects() {
    let config = BuildConfig { delimiter: None, ignore_outer_array: false };
    let mut builder = get_builder(None);
    let mut test_object = r#"[{"field_A": 1}, {"field_B": 2.5}]"#.to_string().into_bytes();
    let schema = build_json_schema(&mut builder, &mut test_object, &config);
    let expected_schema = expected(
        r#"{"type": "array", "items": {"type": "object",
            "properties": {"field_A": {"type": "integer"}, "field_B": {"type": "number"}}}}"#,
    );
    assert_eq!(schema, expected_schema);
}

#[test]
fn test_field_should_be_required_when_present_in_all_objects() {
    let config = BuildConfig { delimiter: None, ignore_outer_array: false };
    let mut builder = get_builder(None);
    let mut test_object =
        r#"[{"field_A": "test_string"}, {"field_A": "test_string"}]"#.to_string().into_bytes();
    let schema = build_json_schema(&mut builder, &mut test_object, &config);
    let expected_schema = expected(
        r#"{"type": "array", "items": {"type": "object",
            "properties": {"field_A": {"type": "string"}}, "required": ["field_A"]}}"#,
    );
    assert_eq!(schema, expected_schema);
}

#[test]
fn test_field_type_should_be_integer_if_all_values_are_ints() {
    let config = BuildConfig { delimiter: None, ignore_outer_array: false };
    let mut builder = get_builder(None);
    let mut test_object =
        r#"[{"field_A": 1}, {"field_A": 2}, {"field_A": 3}]"#.to_string().into_bytes();
    let schema = build_json_schema(&mut builder, &mut test_object, &config);
    let expected_schema = expected(
        r#"{"type": "array", "items": {"type": "object",
            "properties": {"field_A": {"type": "integer"}}, "required": ["field_A"]}}"#,
    );
    assert_eq!(schema, expected_schema);
}

#[test]
fn test_field_type_should_be_number_if_values_include_float() {
    let config = BuildConfig { delimiter: None, ignore_outer_array: false };
    let mut builder = get_builder(None);
    let mut test_object =
        r#"[{"field_A": 1}, {"field_A": 2.5}, {"field_A": 3}]"#.to_string().into_bytes();
    let schema = build_json_schema(&mut builder, &mut test_object, &config);
    let expected_schema = expected(
        r#"{"type": "array", "items": {"type": "object",
            "properties": {"field_A": {"type": "number"}}, "required": ["field_A"]}}"#,
    );
    assert_eq!(schema, expected_schema);
}

#[test]
fn test_schema_should_include_all_fields_that_are_present() {
    let config = BuildConfig { delimiter: None, ignore_outer_array: false };
    let mut builder = get_builder(None);
    let mut test_object = r#"[{"field_A": 1, "field_B": "test_string"},
        {"field_A": 2, "field_B": "test_string"},
        {"field_A": 3, "field_B": "test_string"}]"#
        .to_string()
        .into_bytes();
    let schema = build_json_schema(&mut builder, &mut test_object, &config);
    let expected_schema = expected(
        r#"{"type": "array", "items": {"type": "object",
            "properties": {"field_A": {"type": "integer"}, "field_B": {"type": "string"}},
            "required": ["field_A", "field_B"]}}"#,
    );
    assert_eq!(schema, expected_schema);
}

#[test]
fn test_field_should_be_correct_object_type_when_its_nested_json() {
    let config = BuildConfig { delimiter: None, ignore_outer_array: false };
    let mut builder = get_builder(None);
    let mut test_object = r#"[{"field_A": {"nested_field": 1}},
        {"field_A": {"nested_field": 2}},
        {"field_A": {"nested_field": 3}}]"#
        .to_string()
        .into_bytes();
    let schema = build_json_schema(&mut builder, &mut test_object, &config);
    let expected_schema = expected(
        r#"{"type": "array", "items": {"type": "object",
            "properties": {"field_A": {"type": "object",
                "properties": {"nested_field": {"type": "integer"}},
                "required": ["nested_field"]}},
            "required": ["field_A"]}}"#,
    );
    assert_eq!(schema, expected_schema);
}

#[test]
fn test_field_should_be_correct_array_type_when_its_an_array() {
    let config = BuildConfig { delimiter: None, ignore_outer_array: false };
    let mut builder = get_builder(None);
    let mut test_object =
        r#"[{"field_A": [1, 2, 5.5]}, {"field_A": [1, 2, 3]}, {"field_A": [1, 2, 3]}]"#
            .to_string()
            .into_bytes();
    let schema = build_json_schema(&mut builder, &mut test_object, &config);
    let expected_schema = expected(
        r#"{"type": "array", "items": {"type": "object",
            "properties": {"field_A": {"type": "array", "items": {"type": "number"}}},
            "required": ["field_A"]}}"#,
    );
    assert_eq!(schema, expected_schema);
}

#[test]
fn test_field_should_be_correct_tuple_type_when_its_an_array_of_different_value_types() {
    let config = BuildConfig { delimiter: None, ignore_outer_array: false };
    let mut builder = get_builder(None);
    let mut test_object = r#"[{"field_A": [1, "string", 5.5]},
        {"field_A": [1, "string", 3]},
        {"field_A": [1, "string", 3]}]"#
        .to_string()
        .into_bytes();
    let schema = build_json_schema(&mut builder, &mut test_object, &config);
    let expected_schema = expected(
        r#"{"type": "array", "items": {"type": "object",
            "properties": {"field_A": {"type": "array",
                "items": {"type": ["number", "string"]}}},
            "required": ["field_A"]}}"#,
    );
    assert_eq!(schema, expected_schema);
}

#[test]
fn test_schema_should_be_correct_when_building_from_multiple_objects() {
    let config = BuildConfig { delimiter: Some("\n".as_bytes()[0]), ignore_outer_array: false };
    let mut builder = get_builder(None);
    let mut test_object = r#"
      {"field_A": 1, "field_B": "test_string"}
      {"field_A": 2, "field_B": "test_string"}
      {"field_A": 3, "field_B": "test_string"}
      {"field_A": 4, "field_B": "test_string"}
      {"field_A": 5, "field_B": "test_string"}
      {"field_A": 6, "field_B": "test_string"}
      {"field_A": 7, "field_B": "test_string"}
      {"field_A": 8, "field_B": "test_string"}
      {"field_A": 9, "field_B": "test_string"}
      {"field_A": 10, "field_B": "test_string"}
    "#
    .to_string()
    .into_bytes();
    let schema = build_json_schema(&mut builder, &mut test_object, &config);
    let expected_schema = expected(
        r#"{"type": "object",
            "properties": {"field_A": {"type": "integer"}, "field_B": {"type": "string"}},
            "required": ["field_A", "field_B"]}"#,
    );
    assert_eq!(schema, expected_schema);
}

#[test]
fn test_json_schema_should_not_contain_outer_array_when_ignore_outer_array_config_is_true() {
    let config = BuildConfig { delimiter: None, ignore_outer_array: true };
    let mut builder = get_builder(None);
    let mut test_object = r#"
    [
      {"field_A": 1, "field_B": "test_string"}
      {"field_A": 2, "field_B": "test_string"}
    ]"#
    .to_string()
    .into_bytes();
    let schema = build_json_schema(&mut builder, &mut test_object, &config);
    let expected_schema = expected(
        r#"{"type": "object",
            "properties": {"field_A": {"type": "integer"}, "field_B": {"type": "string"}},
            "required": ["field_A", "field_B"]}"#,
    );
    assert_eq!(schema, expected_schema);
}

#[test]
fn batch_merge_gives_the_same_schema_for_any_partition() {
    let docs = [
        r#"{"a": 1, "b": "x", "c": null}"#,
        r#"{"a": 2.5, "b": "y"}"#,
        r#"{"a": 3, "b": true, "d": [1, "z"]}"#,
        r#"{"a": 4, "b": "w", "d": [2]}"#,
    ];
    let values: Vec<JsonValue> =
        docs.iter().map(|d| to_value(&serde_json::from_str(d).unwrap())).collect();
    let mut one = get_builder(None);
    for v in &values {
        one.add_object(v);
    }
    let whole = from_value(&one.to_schema());
    let splits: [&[usize]; 3] = [&[0, 1, 2, 3], &[3, 1, 0, 2], &[2, 0, 3, 1]];
    for order in splits {
        let mut left = get_builder(None);
        let mut right = get_builder(None);
        left.add_object(&values[order[0]]);
        left.add_object(&values[order[1]]);
        right.add_object(&values[order[2]]);
        right.add_object(&values[order[3]]);
        let mut total = get_builder(None);
        total.add_builder(&right).unwrap();
        total.add_builder(&left).unwrap();
        let merged = from_value(&total.to_schema());
        assert_eq!(sorted_any_of(&merged), sorted_any_of(&whole));
    }
}

/// The schema with each `anyOf` list in a fixed order.
fn sorted_any_of(v: &serde_json::Value) -> serde_json::Value {
    match v {
        serde_json::Value::Object(m) => {
            let mut out = serde_json::Map::new();
            for (k, x) in m {
                let y = sorted_any_of(x);
                if k == "anyOf" {
                    if let serde_json::Value::Array(items) = y {
                        let mut items = items.clone();
                        items.sort_by_key(|i| i.to_string());
                        out.insert(k.clone(), serde_json::Value::Array(items));
                        continue;
                    }
                }
                out.insert(k.clone(), y);
            }
            serde_json::Value::Object(out)
        }
        serde_json::Value::Array(items) => {
            serde_json::Value::Array(items.iter().map(sorted_any_of).collect())
        }
        other => other.clone(),
    }
}
