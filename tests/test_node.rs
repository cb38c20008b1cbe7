use genson_rs::node::SchemaNode;
use genson_rs::strategy::{BasicSchemaStrategy, ObjectStrategy};
use genson_rs::{get_builder, JsonValue, SchemaError};

fn to_value(v: &serde_json::Value) -> JsonValue {
    match v {
        serde_json::Value::Null => JsonValue::Null,
        serde_json::Value::Bool(b) => JsonValue::Bool(*b),
        serde_json::Value::Number(n) => {
            if let Some(i) = n.as_i64() {
                JsonValue::Integer(i as i128)
            } else if let Some(u) = n.as_u64() {
                JsonValue::Integer(u as i128)
            } else {
                JsonValue::Real(n.to_string())
            }
        }
        serde_json::Value::String(s) => JsonValue::Str(s.clone()),
        serde_json::Value::Array(items) => JsonValue::Array(items.iter().map(to_value).collect()),
        serde_json::Value::Object(m) => {
            JsonValue::Object(m.iter().map(|(k, v)| (k.clone(), to_value(v))).collect())
        }
    }
}

fn from_value(v: &JsonValue) -> serde_json::Value {
    match v {
        JsonValue::Null => serde_json::Value::Null,
        JsonValue::Bool(b) => serde_json::Value::Bool(*b),
        JsonValue::Integer(i) => {
            if let Ok(x) = i64::try_from(*i) {
                serde_json::Value::from(x)
            } else {
                serde_json::Value::from(u64::try_from(*i).unwrap())
            }
        }
        JsonValue::Real(s) => serde_json::Value::Number(s.parse().unwrap()),
        JsonValue::Str(s) => serde_json::Value::String(s.clone()),
        JsonValue::Array(items) => serde_json::Value::Array(items.iter().map(from_value).collect()),
        JsonValue::Object(entries) => {
            let mut m = serde_json::Map::new();
            for (k, v) in entries {
                m.insert(k.clone(), from_value(v));
            }
            serde_json::Value::Object(m)
        }
    }
}

fn json(text: &str) -> serde_json::Value {
    serde_json::from_str(text).unwrap()
}

fn doc(text: &str) -> JsonValue {
    to_value(&json(text))
}

fn schema_of(node: &SchemaNode) -> serde_json::Value {
    from_value(&node.to_schema())
}

#[test]
fn test_add_object_file() {
    let mut builder = get_builder(Some("AUTO"));
    builder.add_object(&doc(
        r#"[{"multi": 1}, {"multi": null}, {"multi": "string"}, {"multi": {"key": "value"}}]"#,
    ));
    let expected = json(
        r#"{"$schema": "http://json-schema.org/schema#", "type": "array",
            "items": {"type": "object",
                "properties": {"multi": {"anyOf": [
                    {"type": "object", "properties": {"key": {"type": "string"}}, "required": ["key"]},
                    {"type": ["integer", "null", "string"]}]}},
                "required": ["multi"]}}"#,
    );
    assert_eq!(from_value(&builder.to_schema()), expected);
}

#[test]
fn empty_node_gives_empty_schema() {
    let node = SchemaNode::new();
    assert_eq!(schema_of(&node), json("{}"));
}

#[test]
fn array_without_elements_has_no_items() {
    let mut node = SchemaNode::new();
    node.add_object(&doc("[]"));
    assert_eq!(schema_of(&node), json(r#"{"type": "array"}"#));
    node.add_object(&doc("[true]"));
    assert_eq!(schema_of(&node), json(r#"{"type": "array", "items": {"type": "boolean"}}"#));
}

#[test]
fn non_object_schema_is_invalid_shape() {
    let mut node = SchemaNode::new();
    assert_eq!(node.add_schema(&doc(r#""string""#)), Err(SchemaError::InvalidShape));
    let mut builder = get_builder(None);
    assert_eq!(builder.add_schema(&doc("[1]")), Err(SchemaError::InvalidShape));
    assert_eq!(schema_of(&node), json("{}"));
}

#[test]
fn unknown_type_is_unrecognized_and_changes_nothing() {
    let mut node = SchemaNode::new();
    node.add_object(&doc("1"));
    assert_eq!(node.add_schema(&doc(r#"{"type": "date"}"#)), Err(SchemaError::UnrecognizedKind));
    assert_eq!(
        node.add_schema(&doc(r#"{"type": "object", "properties": {"a": {"type": 5}}}"#)),
        Err(SchemaError::UnrecognizedKind)
    );
    assert_eq!(
        node.add_schema(&doc(r#"{"type": "array"}"#)),
        Err(SchemaError::UnrecognizedKind)
    );
    assert_eq!(
        node.add_schema(&doc(r#"{"type": "object", "required": [1]}"#)),
        Err(SchemaError::UnrecognizedKind)
    );
    assert_eq!(schema_of(&node), json(r#"{"type": "integer"}"#));
}

#[test]
fn typeless_keywords_stand_alone_then_are_absorbed() {
    let mut node = SchemaNode::new();
    node.add_schema(&doc(r#"{"description": "a count"}"#)).unwrap();
    assert_eq!(schema_of(&node), json(r#"{"description": "a count"}"#));
    node.add_object(&doc("3"));
    assert_eq!(schema_of(&node), json(r#"{"description": "a count", "type": "integer"}"#));
}

#[test]
fn typeless_fragment_goes_to_first_strategy() {
    let mut node = SchemaNode::new();
    node.add_object(&doc(r#""s""#));
    node.add_object(&doc("1"));
    node.add_schema(&doc(r#"{"minLength": 1}"#)).unwrap();
    assert_eq!(
        schema_of(&node),
        json(r#"{"anyOf": [{"minLength": 1, "type": "string"}, {"type": "integer"}]}"#)
    );
}

#[test]
fn type_list_feeds_one_strategy_per_name() {
    let mut node = SchemaNode::new();
    node.add_schema(&doc(r#"{"type": ["string", "null"]}"#)).unwrap();
    assert_eq!(schema_of(&node), json(r#"{"type": ["null", "string"]}"#));
}

#[test]
fn any_of_members_are_merged_one_by_one() {
    let mut node = SchemaNode::new();
    node.add_schema(&doc(
        r#"{"anyOf": [{"type": "string"},
            {"type": "object", "properties": {"a": {"type": "integer"}}}]}"#,
    ))
    .unwrap();
    assert_eq!(
        schema_of(&node),
        json(r#"{"anyOf": [{"type": "object", "properties": {"a": {"type": "integer"}}},
            {"type": "string"}]}"#)
    );
}

#[test]
fn number_type_widens_integer() {
    let mut node = SchemaNode::new();
    node.add_schema(&doc(r#"{"type": "integer"}"#)).unwrap();
    assert_eq!(schema_of(&node), json(r#"{"type": "integer"}"#));
    node.add_schema(&doc(r#"{"type": "number"}"#)).unwrap();
    assert_eq!(schema_of(&node), json(r#"{"type": "number"}"#));
    node.add_object(&doc("4"));
    assert_eq!(schema_of(&node), json(r#"{"type": "number"}"#));
}

#[test]
fn fractional_value_widens_integer() {
    let mut node = SchemaNode::new();
    for v in ["1", "2", "-3"] {
        node.add_object(&doc(v));
    }
    assert_eq!(schema_of(&node), json(r#"{"type": "integer"}"#));
    node.add_object(&doc("0.5"));
    node.add_object(&doc("7"));
    assert_eq!(schema_of(&node), json(r#"{"type": "number"}"#));
}

#[test]
fn first_keyword_value_wins() {
    let mut node = SchemaNode::new();
    node.add_schema(&doc(r#"{"type": "string", "maxLength": 3}"#)).unwrap();
    node.add_schema(&doc(r#"{"type": "string", "maxLength": 5, "format": "date"}"#)).unwrap();
    assert_eq!(
        schema_of(&node),
        json(r#"{"type": "string", "maxLength": 3, "format": "date"}"#)
    );
}

#[test]
fn required_lists_intersect() {
    let mut node = SchemaNode::new();
    node.add_schema(&doc(r#"{"type": "object", "required": ["b", "a"]}"#)).unwrap();
    assert_eq!(schema_of(&node), json(r#"{"type": "object", "required": ["a", "b"]}"#));
    node.add_schema(&doc(r#"{"type": "object", "required": ["c", "b"]}"#)).unwrap();
    assert_eq!(schema_of(&node), json(r#"{"type": "object", "required": ["b"]}"#));
    node.add_object(&doc(r#"{"a": 1}"#));
    assert_eq!(
        schema_of(&node),
        json(r#"{"type": "object", "properties": {"a": {"type": "integer"}}}"#)
    );
}

#[test]
fn empty_required_list_is_kept() {
    let mut node = SchemaNode::new();
    node.add_schema(&doc(r#"{"type": "object", "required": []}"#)).unwrap();
    assert_eq!(schema_of(&node), json(r#"{"type": "object", "required": []}"#));
}

#[test]
fn pattern_properties_take_matching_keys() {
    let mut node = SchemaNode::new();
    node.add_schema(&doc(
        r#"{"type": "object", "patternProperties": {"b$": {"type": "string"}}}"#,
    ))
    .unwrap();
    node.add_object(&doc(r#"{"ab": "x", "c": 1}"#));
    assert_eq!(
        schema_of(&node),
        json(r#"{"type": "object", "patternProperties": {"b$": {"type": "string"}},
            "properties": {"c": {"type": "integer"}}, "required": ["c"]}"#)
    );
}

#[test]
fn invalid_pattern_matches_nothing() {
    let mut node = SchemaNode::new();
    node.add_schema(&doc(r#"{"type": "object", "patternProperties": {"(": {"type": "string"}}}"#))
        .unwrap();
    node.add_object(&doc(r#"{"(": 1}"#));
    assert_eq!(
        schema_of(&node),
        json(r#"{"type": "object", "patternProperties": {"(": {"type": "string"}},
            "properties": {"(": {"type": "integer"}}, "required": ["("]}"#)
    );
}

#[test]
fn required_names_are_sorted() {
    let mut node = SchemaNode::new();
    node.add_object(&doc(r#"{"zeta": 1, "Alpha": 2, "beta": 3, "alpha": 4}"#));
    let schema = node.to_schema();
    let value = from_value(&schema);
    assert_eq!(value["required"], json(r#"["Alpha", "alpha", "beta", "zeta"]"#));
}

#[test]
fn schema_uri_settings() {
    let mut auto = get_builder(Some("AUTO"));
    auto.add_object(&doc(r#""s""#));
    assert_eq!(
        from_value(&auto.to_schema()),
        json(r#"{"$schema": "http://json-schema.org/schema#", "type": "string"}"#)
    );
    let mut detect = get_builder(Some("AUTO"));
    detect.add_schema(&doc(r#"{"$schema": "urn:x", "type": "string"}"#)).unwrap();
    assert_eq!(from_value(&detect.to_schema()), json(r#"{"$schema": "urn:x", "type": "string"}"#));
    let mut given = get_builder(Some("urn:y"));
    given.add_object(&doc("null"));
    assert_eq!(from_value(&given.to_schema()), json(r#"{"$schema": "urn:y", "type": "null"}"#));
    let mut omitted = get_builder(None);
    omitted.add_object(&doc("true"));
    assert_eq!(from_value(&omitted.to_schema()), json(r#"{"type": "boolean"}"#));
}

#[test]
fn merging_a_schema_into_itself_changes_nothing() {
    let mut node = SchemaNode::new();
    node.add_object(&doc(r#"{"a": [1, "x"], "b": {"c": null}, "d": 2.5}"#));
    node.add_object(&doc(r#"{"a": [], "b": {"c": true}, "e": "y"}"#));
    let s = node.to_schema();
    let mut again = SchemaNode::new();
    again.add_schema(&s).unwrap();
    assert_eq!(schema_of(&again), from_value(&s));
    again.add_schema(&s).unwrap();
    assert_eq!(schema_of(&again), from_value(&s));
    node.add_schema(&s).unwrap();
    assert_eq!(schema_of(&node), from_value(&s));
}

#[test]
fn merging_another_node() {
    let mut left = SchemaNode::new();
    left.add_object(&doc(r#"{"a": 1}"#));
    let mut right = SchemaNode::new();
    right.add_object(&doc(r#"{"a": "s", "b": 1}"#));
    left.add_schema_node(&right).unwrap();
    assert_eq!(
        schema_of(&left),
        json(r#"{"type": "object", "properties": {"a": {"type": ["integer", "string"]},
            "b": {"type": "integer"}}, "required": ["a"]}"#)
    );
}

#[test]
fn strategies_match_their_kinds() {
    let s = BasicSchemaStrategy::new_for_object(&doc("2.5"));
    assert!(s.match_object(&doc("7")));
    assert!(!s.match_object(&doc(r#""7""#)));
    assert!(s.match_schema(&doc(r#"{"type": "integer"}"#)));
    assert!(!s.match_schema(&doc(r#"{"minimum": 1}"#)));
    assert!(BasicSchemaStrategy::new_for_schema(&doc(r#"{"type": "array"}"#)).is_none());
    let list = BasicSchemaStrategy::new_for_schema(&doc(r#"{"type": "array", "items": {}}"#)).unwrap();
    assert!(list.match_object(&doc("[]")));
    assert_eq!(from_value(&list.to_schema()), json(r#"{"type": "array"}"#));
    assert!(BasicSchemaStrategy::new_for_schema(&doc(r#"{"description": "x"}"#)).is_none());
}

#[test]
fn repeated_required_keyword_is_not_emitted() {
    let mut o = ObjectStrategy::new();
    o.extra_keywords.push(("required".to_string(), doc(r#"["x"]"#)));
    o.extra_keywords.push(("required".to_string(), doc(r#"["y"]"#)));
    assert_eq!(from_value(&o.to_schema()), json(r#"{"type": "object"}"#));
}

#[test]
fn placeholder_properties_become_children() {
    let mut node = SchemaNode::new();
    node.add_schema(&doc(r#"{"properties": {"a": {"type": "integer"}}}"#)).unwrap();
    node.add_object(&doc(r#"{"b": 1}"#));
    assert_eq!(
        schema_of(&node),
        json(r#"{"type": "object", "properties": {"a": {"type": "integer"},
            "b": {"type": "integer"}}, "required": ["b"]}"#)
    );
}

#[test]
fn placeholder_required_and_items_are_taken_over() {
    let mut node = SchemaNode::new();
    node.add_schema(&doc(r#"{"required": ["a"], "description": "d"}"#)).unwrap();
    node.add_schema(&doc(r#"{"type": "object"}"#)).unwrap();
    assert_eq!(
        schema_of(&node),
        json(r#"{"type": "object", "description": "d", "required": ["a"]}"#)
    );
    let mut list = SchemaNode::new();
    list.add_schema(&doc(r#"{"items": {"type": "string"}}"#)).unwrap();
    list.add_object(&doc("[1]"));
    assert_eq!(
        schema_of(&list),
        json(r#"{"type": "array", "items": {"type": ["integer", "string"]}}"#)
    );
}

#[test]
fn every_adopted_schema_member_is_removed() {
    let mut detect = get_builder(Some("AUTO"));
    let mut d = doc(r#"{"type": "string"}"#);
    if let JsonValue::Object(entries) = &mut d {
        entries.push(("$schema".to_string(), JsonValue::Str("urn:a".to_string())));
        entries.push(("$schema".to_string(), JsonValue::Str("urn:b".to_string())));
    }
    detect.add_schema(&d).unwrap();
    assert_eq!(from_value(&detect.to_schema()), json(r#"{"$schema": "urn:a", "type": "string"}"#));
}
