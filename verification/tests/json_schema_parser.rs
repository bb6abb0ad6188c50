use rsonpath_rewrite::automaton::{ArrayLabel, Automaton};
use rsonpath_rewrite::json_schema_parser::{from_string, try_from_string, ParsingError};

const EXAMPLE_SCHEMA: &str = r##"{
  "$defs": {
    "Book": {
      "type": "object",
      "additionalProperties": false,
      "properties": {
        "title": { "type": "string" },
        "author": { "$ref": "#/$defs/Person" },
        "length": { "type": "integer" }
      }
    },
    "Movie": {
      "type": "object",
      "additionalProperties": false,
      "properties": {
        "title": { "type": "string" },
        "cast": { "type": "array", "items": { "$ref": "#/$defs/Person" } },
        "length": { "type": "integer" }
      }
    },
    "Person": {
      "type": "object",
      "additionalProperties": false,
      "properties": {
        "name": { "type": "string" },
        "age": { "type": "integer" }
      }
    },
    "Root": {
      "type": "object",
      "additionalProperties": false,
      "properties": {
        "content": {
          "type": "array",
          "items": { "anyOf": [ { "$ref": "#/$defs/Book" }, { "$ref": "#/$defs/Movie" } ] }
        }
      }
    }
  }
}"##;

fn members(a: &Automaton, state: usize) -> Vec<(String, usize)> {
    a.states[state].member_transitions.clone()
}

fn array_targets(a: &Automaton, state: usize) -> Vec<usize> {
    a.states[state]
        .array_transitions
        .iter()
        .map(|t| {
            assert_eq!(t.label, ArrayLabel::Slice { start: 0, end: None, step: 1 });
            t.target
        })
        .collect()
}

fn m(label: &str, target: usize) -> (String, usize) {
    (label.to_string(), target)
}

#[test]
fn example_schema_gives_the_expected_automaton() {
    let a = from_string(EXAMPLE_SCHEMA).unwrap();
    assert_eq!(a.num_states(), 8);
    assert!(a.states[0].accepting);
    assert_eq!(a.states[0].fallback_state, 0);
    assert!(!a.states[1].accepting);
    assert_eq!(a.states[1].fallback_state, 1);
    for q in 2..8 {
        assert!(a.states[q].accepting);
        assert_eq!(a.states[q].fallback_state, 1);
    }
    assert_eq!(members(&a, 2), vec![m("title", 0), m("author", 5), m("length", 0)]);
    assert_eq!(array_targets(&a, 3), vec![5]);
    assert!(members(&a, 3).is_empty());
    assert_eq!(members(&a, 4), vec![m("title", 0), m("cast", 3), m("length", 0)]);
    assert_eq!(members(&a, 5), vec![m("name", 0), m("age", 0)]);
    assert_eq!(array_targets(&a, 6), vec![2, 4]);
    assert_eq!(members(&a, 7), vec![m("content", 6)]);
}

#[test]
fn invalid_json_is_reported() {
    assert!(matches!(from_string("{"), Err(ParsingError::InvalidJson(_))));
}

#[test]
fn missing_defs_is_reported() {
    match from_string("{}") {
        Err(ParsingError::FieldNotFound { field }) => assert_eq!(field, "$defs"),
        other => panic!("unexpected {other:?}"),
    }
    match from_string(r#"{"$defs": 1}"#) {
        Err(ParsingError::InvalidType { field, expected }) => {
            assert_eq!(field, "$defs");
            assert_eq!(expected, "object");
        },
        other => panic!("unexpected {other:?}"),
    }
}

#[test]
fn type_must_be_an_object_without_additional_properties() {
    match from_string(r#"{"$defs": {"A": {"additionalProperties": false, "properties": {}}}}"#) {
        Err(ParsingError::FieldNotFound { field }) => assert_eq!(field, "type for 'A'"),
        other => panic!("unexpected {other:?}"),
    }
    match from_string(r#"{"$defs": {"A": {"type": "string", "additionalProperties": false, "properties": {}}}}"#) {
        Err(ParsingError::InvalidType { field, expected }) => {
            assert_eq!(field, "A");
            assert_eq!(expected, "object");
        },
        other => panic!("unexpected {other:?}"),
    }
    match from_string(r#"{"$defs": {"A": {"type": "object", "properties": {}}}}"#) {
        Err(ParsingError::FieldNotFound { field }) => assert_eq!(field, "additionalProperties for 'A'"),
        other => panic!("unexpected {other:?}"),
    }
    match from_string(r#"{"$defs": {"A": {"type": "object", "additionalProperties": true, "properties": {}}}}"#) {
        Err(ParsingError::InvalidType { field, expected }) => {
            assert_eq!(field, "A");
            assert_eq!(expected, "additionalProperties set to false");
        },
        other => panic!("unexpected {other:?}"),
    }
    match from_string(r#"{"$defs": {"A": {"type": "object", "additionalProperties": false}}}"#) {
        Err(ParsingError::FieldNotFound { field }) => assert_eq!(field, "properties"),
        other => panic!("unexpected {other:?}"),
    }
}

#[test]
fn unknown_reference_is_reported() {
    let schema = r##"{"$defs": {"A": {"type": "object", "additionalProperties": false,
        "properties": {"x": {"$ref": "#/$defs/B"}}}}}"##;
    match from_string(schema) {
        Err(ParsingError::TypeNotFound { name, reference }) => {
            assert_eq!(name, "A");
            assert_eq!(reference, "B");
        },
        other => panic!("unexpected {other:?}"),
    }
}

#[test]
fn bad_array_items_are_reported() {
    let schema = r##"{"$defs": {"A": {"type": "object", "additionalProperties": false,
        "properties": {"x": {"items": {"anyOf": 3}}}}}}"##;
    match from_string(schema) {
        Err(ParsingError::InvalidType { field, expected }) => {
            assert_eq!(field, "anyOf");
            assert_eq!(expected, "array");
        },
        other => panic!("unexpected {other:?}"),
    }
    let schema = r##"{"$defs": {"A": {"type": "object", "additionalProperties": false,
        "properties": {"x": {"items": {}}}}}}"##;
    match from_string(schema) {
        Err(ParsingError::FieldNotFound { field }) => assert_eq!(field, "anyOf"),
        other => panic!("unexpected {other:?}"),
    }
    let schema = r##"{"$defs": {"A": {"type": "object", "additionalProperties": false,
        "properties": {"x": {"items": {"anyOf": [{"const": 1}]}}}}}}"##;
    match from_string(schema) {
        Err(ParsingError::InvalidType { field, expected }) => {
            assert_eq!(field, "anyOf item");
            assert_eq!(expected, "object with $ref or type");
        },
        other => panic!("unexpected {other:?}"),
    }
}

#[test]
fn reference_without_slash_names_the_type_itself() {
    let schema = r##"{"$defs": {"A": {"type": "object", "additionalProperties": false,
        "properties": {"self": {"$ref": "A"}}}}}"##;
    let a = from_string(schema).unwrap();
    assert_eq!(members(&a, 2), vec![m("self", 2)]);
}

#[test]
fn small_schemas_are_within_bounds() {
    assert!(try_from_string(EXAMPLE_SCHEMA).is_some());
}
