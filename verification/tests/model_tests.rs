use rust_doc_db::ident::Ulid;
use rust_doc_db::model::DocDbEntry;
use rust_doc_db::value::Value;

#[test]
fn entries_report_and_set_their_fields() {
    let mut entity = Value::Obj(Vec::new());
    entity.insert_field("title", Value::Str("My day".to_string()));
    let mut entry = DocDbEntry { id: Ulid(1), entity };

    assert!(entry.has_field("title").unwrap());
    assert!(!entry.has_field("mood").unwrap());

    entry
        .set_field_value("mood", Value::Str("calm".to_string()))
        .unwrap();
    assert!(entry.has_field("mood").unwrap());
    assert_eq!(
        rust_doc_db::json::to_json(&entry.entity),
        "{\"mood\":\"calm\",\"title\":\"My day\"}"
    );
}

#[test]
fn field_operations_reject_a_non_mapping_entity() {
    let mut entry = DocDbEntry { id: Ulid(2), entity: Value::Int(5) };
    assert!(entry.has_field("title").is_err());
    assert!(entry
        .set_field_value("title", Value::Null)
        .unwrap_err()
        .to_display_string()
        .starts_with("InternalError"));
}
