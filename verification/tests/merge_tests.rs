use rust_doc_db::json::to_json;
use rust_doc_db::merge::merge_entities;
use rust_doc_db::value::Value;

fn obj(fields: Vec<(&str, Value)>) -> Value {
    let mut v = Value::Obj(Vec::new());
    for (key, value) in fields {
        v.insert_field(key, value);
    }
    v
}

fn s(text: &str) -> Value {
    Value::Str(text.to_string())
}

#[test]
pub fn test_merge_entities() {
    let old_entity = obj(vec![
        ("firstname", s("John")),
        ("lastname", s("Smith")),
        ("tags", Value::Arr(vec![s("tag1"), s("tag2")])),
    ]);
    let mut new_entity = obj(vec![("firstname", s("Mark")), ("lastname", s("Smith"))]);
    let _ = merge_entities(&old_entity, &mut new_entity);
    let expected_entity = obj(vec![
        ("firstname", s("Mark")),
        ("lastname", s("Smith")),
        ("tags", Value::Arr(vec![s("tag1"), s("tag2")])),
    ]);
    assert_eq!(to_json(&new_entity), to_json(&expected_entity));
}

#[test]
fn merging_with_empty_payload_keeps_the_entity() {
    let stored = obj(vec![
        ("date", s("2021-01-01")),
        ("description", s("Today I went to the forest")),
        ("title", s("My day")),
    ]);
    let mut payload = obj(vec![]);
    merge_entities(&stored, &mut payload).unwrap();
    assert_eq!(to_json(&payload), to_json(&stored));
}

#[test]
fn non_null_payload_value_wins() {
    let stored = obj(vec![("count", Value::Int(1)), ("title", s("old"))]);
    let mut payload = obj(vec![("title", s("new"))]);
    merge_entities(&stored, &mut payload).unwrap();
    let expected = obj(vec![("count", Value::Int(1)), ("title", s("new"))]);
    assert_eq!(to_json(&payload), to_json(&expected));
}

#[test]
fn null_payload_value_is_filled_from_stored() {
    let stored = obj(vec![("title", s("kept"))]);
    let mut payload = obj(vec![("title", Value::Null)]);
    merge_entities(&stored, &mut payload).unwrap();
    let expected = obj(vec![("title", s("kept"))]);
    assert_eq!(to_json(&payload), to_json(&expected));
}

#[test]
fn stored_only_keys_survive() {
    let stored = obj(vec![("a", Value::Int(1)), ("b", Value::Bool(true))]);
    let mut payload = obj(vec![("c", s("x"))]);
    merge_entities(&stored, &mut payload).unwrap();
    let expected = obj(vec![("a", Value::Int(1)), ("b", Value::Bool(true)), ("c", s("x"))]);
    assert_eq!(to_json(&payload), to_json(&expected));
}

#[test]
fn merge_rejects_a_non_mapping_target() {
    let stored = s("just a string");
    let mut payload = obj(vec![("a", Value::Int(1))]);
    let result = merge_entities(&stored, &mut payload);
    assert!(result.is_err());
    let message = result.unwrap_err().to_display_string();
    assert!(message.starts_with("InternalError"));
}
