use kimi_agent::json::{JsonNumber, JsonValue};
use kimi_agent::jsonschema::{deref_json_schema, ensure_property_types};

fn from_serde(v: &serde_json::Value) -> JsonValue {
    match v {
        serde_json::Value::Null => JsonValue::Null,
        serde_json::Value::Bool(b) => JsonValue::Bool(*b),
        serde_json::Value::Number(n) => {
            if let Some(u) = n.as_u64() {
                JsonValue::Number(JsonNumber::PosInt(u))
            } else if let Some(i) = n.as_i64() {
                JsonValue::Number(JsonNumber::NegInt(i))
            } else {
                JsonValue::Number(JsonNumber::Float(n.as_f64().unwrap_or(0.0).to_bits()))
            }
        }
        serde_json::Value::String(s) => JsonValue::String(s.clone()),
        serde_json::Value::Array(items) => JsonValue::Array(items.iter().map(from_serde).collect()),
        serde_json::Value::Object(map) => {
            JsonValue::Object(map.iter().map(|(k, v)| (k.clone(), from_serde(v))).collect())
        }
    }
}

fn to_serde(v: &JsonValue) -> serde_json::Value {
    match v {
        JsonValue::Null => serde_json::Value::Null,
        JsonValue::Bool(b) => serde_json::Value::Bool(*b),
        JsonValue::Number(JsonNumber::PosInt(u)) => serde_json::Value::from(*u),
        JsonValue::Number(JsonNumber::NegInt(i)) => serde_json::Value::from(*i),
        JsonValue::Number(JsonNumber::Float(bits)) => serde_json::Value::from(f64::from_bits(*bits)),
        JsonValue::String(s) => serde_json::Value::String(s.clone()),
        JsonValue::Array(items) => serde_json::Value::Array(items.iter().map(to_serde).collect()),
        JsonValue::Object(entries) => {
            let mut map = serde_json::Map::new();
            for (k, v) in entries {
                map.insert(k.clone(), to_serde(v));
            }
            serde_json::Value::Object(map)
        }
    }
}

fn json(text: &str) -> serde_json::Value {
    serde_json::from_str(text).expect("valid json")
}

fn normalized(schema: &serde_json::Value) -> serde_json::Value {
    to_serde(&ensure_property_types(&from_serde(schema)))
}

fn dereferenced(schema: &serde_json::Value) -> serde_json::Value {
    to_serde(&deref_json_schema(&from_serde(schema)))
}

#[test]
fn test_ensure_property_types_fills_missing_type_on_enum() {
    let schema = json(
        r#"{
        "type": "object",
        "properties": {
            "truncateMode": {
                "description": "How to truncate long outputs.",
                "enum": ["smart", "full", "none"]
            }
        }
    }"#,
    );
    let expected = json(
        r#"{
        "type": "object",
        "properties": {
            "truncateMode": {
                "description": "How to truncate long outputs.",
                "enum": ["smart", "full", "none"],
                "type": "string"
            }
        }
    }"#,
    );
    assert_eq!(normalized(&schema), expected);
}

#[test]
fn test_ensure_property_types_does_not_mutate_input() {
    let schema = from_serde(&json(
        r#"{
        "type": "object",
        "properties": {"x": {"enum": ["a", "b"]}}
    }"#,
    ));
    let original = to_serde(&schema);
    let _ = ensure_property_types(&schema);
    assert_eq!(to_serde(&schema), original);
}

#[test]
fn test_ensure_property_types_infers_from_enum_values() {
    let schema = json(
        r#"{
        "type": "object",
        "properties": {
            "as_string": {"enum": ["a", "b"]},
            "as_integer": {"enum": [1, 2, 3]},
            "int_and_float_as_number": {"enum": [1.0, 2]},
            "as_boolean": {"enum": [true, false]},
            "as_null": {"enum": [null]},
            "bool_and_int_fallback": {"enum": [true, 1]},
            "string_and_int_fallback": {"enum": ["a", 1]}
        }
    }"#,
    );
    let expected = json(
        r#"{
        "type": "object",
        "properties": {
            "as_string": {"enum": ["a", "b"], "type": "string"},
            "as_integer": {"enum": [1, 2, 3], "type": "integer"},
            "int_and_float_as_number": {"enum": [1.0, 2], "type": "number"},
            "as_boolean": {"enum": [true, false], "type": "boolean"},
            "as_null": {"enum": [null], "type": "null"},
            "bool_and_int_fallback": {"enum": [true, 1], "type": "string"},
            "string_and_int_fallback": {"enum": ["a", 1], "type": "string"}
        }
    }"#,
    );
    assert_eq!(normalized(&schema), expected);
}

#[test]
fn test_ensure_property_types_handles_const() {
    let schema = json(
        r#"{
        "type": "object",
        "properties": {"kind": {"const": "event"}}
    }"#,
    );
    let expected = json(
        r#"{
        "type": "object",
        "properties": {"kind": {"const": "event", "type": "string"}}
    }"#,
    );
    assert_eq!(normalized(&schema), expected);
}

#[test]
fn test_ensure_property_types_defaults_to_string_when_no_hint() {
    let schema = json(
        r#"{
        "type": "object",
        "properties": {"opaque": {"description": "Some value."}}
    }"#,
    );
    let expected = json(
        r#"{
        "type": "object",
        "properties": {"opaque": {"description": "Some value.", "type": "string"}}
    }"#,
    );
    assert_eq!(normalized(&schema), expected);
}

#[test]
fn test_ensure_property_types_infers_structural_type_before_string_fallback() {
    let schema = json(
        r#"{
        "type": "object",
        "properties": {
            "nested_object": {
                "properties": {"host": {"type": "string"}},
                "required": ["host"]
            },
            "free_form_map": {"additionalProperties": {"type": "string"}},
            "list_of_ints": {"items": {"type": "integer"}},
            "bounded_list": {"minItems": 1, "maxItems": 10},
            "email": {"format": "email"},
            "slug": {"pattern": "^[a-z0-9-]+$"},
            "bounded_number": {"minimum": 0, "maximum": 100},
            "opaque": {"description": "something"}
        }
    }"#,
    );
    let expected = json(
        r#"{
        "type": "object",
        "properties": {
            "nested_object": {
                "properties": {"host": {"type": "string"}},
                "required": ["host"],
                "type": "object"
            },
            "free_form_map": {
                "additionalProperties": {"type": "string"},
                "type": "object"
            },
            "list_of_ints": {"items": {"type": "integer"}, "type": "array"},
            "bounded_list": {"minItems": 1, "maxItems": 10, "type": "array"},
            "email": {"format": "email", "type": "string"},
            "slug": {"pattern": "^[a-z0-9-]+$", "type": "string"},
            "bounded_number": {"minimum": 0, "maximum": 100, "type": "number"},
            "opaque": {"description": "something", "type": "string"}
        }
    }"#,
    );
    assert_eq!(normalized(&schema), expected);
}

#[test]
fn test_ensure_property_types_leaves_combinators_alone() {
    let schema = json(
        r##"{
        "type": "object",
        "properties": {
            "either": {
                "anyOf": [
                    {"type": "string"},
                    {"enum": [1, 2]}
                ]
            },
            "ref_prop": {"$ref": "#/$defs/Something"},
            "negated": {"not": {"type": "number"}},
            "conditional": {
                "if": {"properties": {"kind": {"const": "a"}}},
                "then": {"required": ["a_only"]},
                "else": {"required": ["b_only"]}
            }
        }
    }"##,
    );
    let expected = json(
        r##"{
        "type": "object",
        "properties": {
            "either": {
                "anyOf": [
                    {"type": "string"},
                    {"enum": [1, 2], "type": "integer"}
                ]
            },
            "ref_prop": {"$ref": "#/$defs/Something"},
            "negated": {"not": {"type": "number"}},
            "conditional": {
                "if": {"properties": {"kind": {"const": "a"}}},
                "then": {"required": ["a_only"]},
                "else": {"required": ["b_only"]}
            }
        }
    }"##,
    );
    assert_eq!(normalized(&schema), expected);
}

#[test]
fn test_ensure_property_types_infers_object_and_array_from_container_enum_values() {
    let schema = json(
        r#"{
        "type": "object",
        "properties": {
            "object_enum": {"enum": [{"a": 1}, {"a": 2}]},
            "array_enum": {"enum": [[1, 2], [3]]},
            "object_const": {"const": {"kind": "default"}},
            "array_const": {"const": []}
        }
    }"#,
    );
    let expected = json(
        r#"{
        "type": "object",
        "properties": {
            "object_enum": {"enum": [{"a": 1}, {"a": 2}], "type": "object"},
            "array_enum": {"enum": [[1, 2], [3]], "type": "array"},
            "object_const": {"const": {"kind": "default"}, "type": "object"},
            "array_const": {"const": [], "type": "array"}
        }
    }"#,
    );
    assert_eq!(normalized(&schema), expected);
}

#[test]
fn test_ensure_property_types_recurses_into_nested_objects_and_arrays() {
    let schema = json(
        r#"{
        "type": "object",
        "properties": {
            "nested": {
                "type": "object",
                "properties": {
                    "choice": {"enum": ["a", "b"]}
                }
            },
            "items_list": {
                "type": "array",
                "items": {"enum": [1, 2, 3]}
            },
            "free_map": {
                "type": "object",
                "additionalProperties": {"enum": ["x", "y"]}
            }
        }
    }"#,
    );
    let expected = json(
        r#"{
        "type": "object",
        "properties": {
            "nested": {
                "type": "object",
                "properties": {
                    "choice": {"enum": ["a", "b"], "type": "string"}
                }
            },
            "items_list": {
                "type": "array",
                "items": {"enum": [1, 2, 3], "type": "integer"}
            },
            "free_map": {
                "type": "object",
                "additionalProperties": {"enum": ["x", "y"], "type": "string"}
            }
        }
    }"#,
    );
    assert_eq!(normalized(&schema), expected);
}

#[test]
fn ensure_property_types_is_idempotent_on_example() {
    let schema = json(
        r#"{
        "type": "object",
        "properties": {
            "a": {"enum": [1, 2.5]},
            "b": {"items": {"const": true}},
            "c": {"anyOf": [{"enum": [null]}]}
        }
    }"#,
    );
    let once = normalized(&schema);
    assert_eq!(normalized(&once), once);
}

#[test]
fn ensure_property_types_keeps_non_objects() {
    let schema = json(r#"[1, {"enum": ["a"]}]"#);
    assert_eq!(normalized(&schema), schema);
    assert_eq!(normalized(&json("\"text\"")), json("\"text\""));
}

#[test]
fn ensure_property_types_top_level_gets_no_type() {
    let schema = json(r#"{"properties": {"x": {"minLength": 1}}}"#);
    let expected = json(r#"{"properties": {"x": {"minLength": 1, "type": "string"}}}"#);
    assert_eq!(normalized(&schema), expected);
}

#[test]
fn ensure_property_types_empty_enum_gets_no_type() {
    let schema = json(r#"{"properties": {"x": {"enum": []}}}"#);
    assert_eq!(normalized(&schema), schema);
}

#[test]
fn deref_json_schema_inlines_definitions() {
    let schema = json(
        r##"{
        "type": "object",
        "properties": {
            "point": {"$ref": "#/$defs/Point"},
            "items": {"type": "array", "items": {"$ref": "#/definitions/Name"}}
        },
        "$defs": {"Point": {"type": "object", "properties": {"x": {"$ref": "#/definitions/Name"}}}},
        "definitions": {"Name": {"type": "string"}}
    }"##,
    );
    let expected = json(
        r#"{
        "type": "object",
        "properties": {
            "point": {"type": "object", "properties": {"x": {"type": "string"}}},
            "items": {"type": "array", "items": {"type": "string"}}
        }
    }"#,
    );
    assert_eq!(dereferenced(&schema), expected);
}

#[test]
fn deref_json_schema_target_wins_and_unresolved_refs_stay() {
    let schema = json(
        r##"{
        "properties": {
            "a": {"$ref": "#/$defs/A", "description": "kept"},
            "b": {"$ref": "#/$defs/Missing"},
            "c": {"$ref": "https://example.com/schema"}
        },
        "$defs": {"A": {"type": "integer", "description": "from def"}}
    }"##,
    );
    let expected = json(
        r##"{
        "properties": {
            "a": {"type": "integer", "description": "from def"},
            "b": {"$ref": "#/$defs/Missing"},
            "c": {"$ref": "https://example.com/schema"}
        }
    }"##,
    );
    assert_eq!(dereferenced(&schema), expected);
}

#[test]
fn deref_json_schema_without_refs_drops_only_definitions() {
    let schema = json(r#"{"type": "object", "definitions": {"X": {}}, "required": ["a"]}"#);
    let expected = json(r#"{"type": "object", "required": ["a"]}"#);
    assert_eq!(dereferenced(&schema), expected);
}

#[test]
fn deref_json_schema_ends_on_a_reference_cycle() {
    let schema = json(
        r##"{
        "properties": {"a": {"$ref": "#/$defs/A"}, "b": {"$ref": "#/$defs/B"}},
        "$defs": {
            "A": {"$ref": "#/$defs/A"},
            "B": {"type": "object", "properties": {"next": {"$ref": "#/$defs/B"}}}
        }
    }"##,
    );
    let expected = json(
        r##"{
        "properties": {
            "a": {"$ref": "#/$defs/A"},
            "b": {"type": "object", "properties": {"next": {"$ref": "#/$defs/B"}}}
        }
    }"##,
    );
    assert_eq!(dereferenced(&schema), expected);
}

#[test]
fn deref_json_schema_whole_document_reference() {
    let schema = json(r##"{"properties": {"self": {"$ref": "#"}}, "type": "object"}"##);
    let expected = json(
        r##"{"properties": {"self": {"properties": {"self": {"$ref": "#"}}, "type": "object"}}, "type": "object"}"##,
    );
    assert_eq!(dereferenced(&schema), expected);
}

#[test]
fn deref_json_schema_expands_beside_a_resolved_reference() {
    let schema = json(
        r##"{"$defs": {"A": {"type": "object"}, "B": {"type": "string"}},
            "properties": {"x": {"$ref": "#/$defs/A", "properties": {"y": {"$ref": "#/$defs/B"}}}}}"##,
    );
    let expected = json(r#"{"properties": {"x": {"type": "object", "properties": {"y": {"type": "string"}}}}}"#);
    assert_eq!(dereferenced(&schema), expected);
}

#[test]
fn test_ensure_property_types_adds_string_default() {
    let schema = normalized(&json(
        r#"{"properties": {"name": {"description": "The name"}}, "type": "object"}"#,
    ));
    assert_eq!(
        schema,
        json(r#"{"properties": {"name": {"description": "The name", "type": "string"}}, "type": "object"}"#)
    );
}

#[test]
fn test_ensure_property_types_infers_from_enum() {
    let schema = normalized(&json(
        r#"{"properties": {"status": {"enum": ["pending", "in_progress", "done"]}}, "type": "object"}"#,
    ));
    assert_eq!(schema["properties"]["status"]["type"], "string");
}

#[test]
fn test_ensure_property_types_infers_object_from_properties() {
    let schema = normalized(&json(
        r#"{"properties": {"nested": {"properties": {"value": {"description": "A value"}}}}, "type": "object"}"#,
    ));
    assert_eq!(schema["properties"]["nested"]["type"], "object");
    assert_eq!(schema["properties"]["nested"]["properties"]["value"]["type"], "string");
}

#[test]
fn test_ensure_property_types_infers_array_from_items() {
    let schema = normalized(&json(
        r#"{"properties": {"tags": {"items": {"description": "A tag"}}}, "type": "object"}"#,
    ));
    assert_eq!(schema["properties"]["tags"]["type"], "array");
    assert_eq!(schema["properties"]["tags"]["items"]["type"], "string");
}

#[test]
fn test_ensure_property_types_preserves_existing_type() {
    let schema = normalized(&json(
        r#"{"properties": {"count": {"type": "integer", "minimum": 0}}, "type": "object"}"#,
    ));
    assert_eq!(schema["properties"]["count"]["type"], "integer");
    assert_eq!(schema["properties"]["count"]["minimum"], 0);
}

#[test]
fn test_ensure_property_types_deeply_nested() {
    let schema = normalized(&json(
        r#"{"properties": {"outer": {"properties": {"inner": {"items": {"properties": {"leaf": {"description": "leaf node"}}}}}}}, "type": "object"}"#,
    ));
    assert_eq!(schema["properties"]["outer"]["type"], "object");
    assert_eq!(schema["properties"]["outer"]["properties"]["inner"]["type"], "array");
    assert_eq!(schema["properties"]["outer"]["properties"]["inner"]["items"]["type"], "object");
    assert_eq!(
        schema["properties"]["outer"]["properties"]["inner"]["items"]["properties"]["leaf"]["type"],
        "string"
    );
}
