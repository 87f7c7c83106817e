use rust_doc_db::doc_db::clear_db;
use rust_doc_db::errors::DocDbError;
use rust_doc_db::doc_db::delete_entity_from_db;
use rust_doc_db::doc_db::get_entry_from_db;
use rust_doc_db::doc_db::insert_entity_to_db;
use rust_doc_db::doc_db::make_sure_db_exists;
use rust_doc_db::doc_db::set_entity_field_value;
use rust_doc_db::doc_db::tag_entity;
use rust_doc_db::doc_db::DbConfig;
use rust_doc_db::value::Value;

fn test_config(name: &str) -> DbConfig {
    DbConfig {
        sqlite_db_full_filename: format!("/tmp/rust_doc_db_{}.db", name),
        text_db_path: format!("/tmp/rust_doc_db_{}_files/", name),
    }
}

fn setup_test(name: &str) -> DbConfig {
    let db_config = test_config(name);
    make_sure_db_exists(&db_config).unwrap();
    let _ = clear_db(&db_config);
    db_config
}

fn diary_entity() -> Value {
    let mut entity = Value::Obj(Vec::new());
    entity.insert_field("title", Value::Str("My day".to_string()));
    entity.insert_field(
        "description",
        Value::Str("Today I went to the forest".to_string()),
    );
    entity.insert_field("date", Value::Str("2021-01-01".to_string()));
    entity
}

fn string_field(entity: &Value, name: &str) -> Option<String> {
    match entity.get_field(name) {
        Some(Value::Str(text)) => Some(text.clone()),
        _ => None,
    }
}

fn tags_field(entity: &Value) -> Vec<String> {
    let mut tags: Vec<String> = Vec::new();
    if let Some(Value::Arr(items)) = entity.get_field("tags") {
        for item in items {
            if let Value::Str(text) = item {
                tags.push(text.clone());
            }
        }
    }
    tags
}

#[test]
fn should_store_entity_in_sqlite_and_yaml() {
    let db_config = setup_test("store");
    let json_entity = diary_entity();
    let (entity_insert_result, mirror) = insert_entity_to_db(&json_entity, &db_config).unwrap();
    assert!(!&entity_insert_result.is_nil());

    let entry_from_db = get_entry_from_db(&entity_insert_result, &db_config);
    assert!(&entry_from_db.is_ok());

    let expected_file_path = format!(
        "{}{}.yaml",
        db_config.text_db_path,
        entity_insert_result.to_string()
    );
    assert_eq!(mirror.filename, expected_file_path);
    assert_eq!(
        mirror.content,
        "date: 2021-01-01\ndescription: Today I went to the forest\ntitle: My day\n"
    );
}

#[test]
fn can_apply_attributes_to_existing_entities() {
    let db_config = setup_test("attributes");
    let json_entity = diary_entity();
    let (entity_id, _) = insert_entity_to_db(&json_entity, &db_config).unwrap();
    set_entity_field_value(&entity_id, "relationship", "unknown", &db_config).unwrap();

    let entry_from_db = get_entry_from_db(&entity_id, &db_config).unwrap().unwrap();
    assert_eq!(
        string_field(&entry_from_db.entity, "relationship").unwrap(),
        "unknown"
    );
}

#[test]
fn can_apply_tags_to_existing_entities() {
    let db_config = setup_test("apply_tags");
    let json_entity = diary_entity();
    let (entity_id, _) = insert_entity_to_db(&json_entity, &db_config).unwrap();
    tag_entity(&entity_id, "known", &db_config).unwrap();

    let entry_from_db = get_entry_from_db(&entity_id, &db_config).unwrap().unwrap();
    let tags_from_db = tags_field(&entry_from_db.entity);
    assert!(tags_from_db.contains(&"known".to_string()));
}

#[test]
fn tagging_returns_the_tagged_mirror_content() {
    let db_config = setup_test("tag_mirror");
    let json_entity = diary_entity();
    let (entity_id, _) = insert_entity_to_db(&json_entity, &db_config).unwrap();
    let mirror = tag_entity(&entity_id, "known", &db_config).unwrap().unwrap();
    assert_eq!(
        mirror.content,
        "date: 2021-01-01\ndescription: Today I went to the forest\ntags:\n- known\ntitle: My day\n"
    );
}

#[test]
fn setting_a_field_returns_its_mirror_content() {
    let db_config = setup_test("set_field_mirror");
    let json_entity = diary_entity();
    let (entity_id, _) = insert_entity_to_db(&json_entity, &db_config).unwrap();
    let mirror =
        set_entity_field_value(&entity_id, "relationship", "unknown", &db_config).unwrap();
    assert_eq!(
        mirror.content,
        "date: 2021-01-01\ndescription: Today I went to the forest\nrelationship: unknown\ntitle: My day\n"
    );
}

#[test]
fn can_delete_entity() {
    let db_config = setup_test("delete");
    let json_entity = diary_entity();
    let (entity_id, _) = insert_entity_to_db(&json_entity, &db_config).unwrap();
    let entry_from_db = get_entry_from_db(&entity_id, &db_config).unwrap().unwrap();
    assert_eq!(string_field(&entry_from_db.entity, "title").unwrap(), "My day");

    delete_entity_from_db(&entity_id, &db_config).unwrap();
    let entry_from_db_after_deletion_result = get_entry_from_db(&entity_id, &db_config);
    match entry_from_db_after_deletion_result {
        Err(err) => {
            let text = err.to_display_string();
            assert!(text.contains("Entity") && text.contains("not found"))
        }
        Ok(entry_option) => {
            if entry_option.is_some() {
                panic!("Should not be able to get deleted entity")
            }
        }
    }
}

#[test]
fn round_trip_returns_a_deep_equal_entity() {
    let db_config = setup_test("round_trip");
    let mut entity = diary_entity();
    entity.insert_field(
        "numbers",
        Value::Arr(vec![Value::Int(-3), Value::Int(0), Value::Int(12345)]),
    );
    entity.insert_field("flag", Value::Bool(true));
    entity.insert_field("nothing", Value::Null);
    let (entity_id, _) = insert_entity_to_db(&entity, &db_config).unwrap();
    let entry = get_entry_from_db(&entity_id, &db_config).unwrap().unwrap();
    assert!(entry.entity.deep_eq(&entity));
    assert_eq!(entry.id, entity_id);
}

#[test]
fn clearing_the_store_leaves_no_entries() {
    let db_config = setup_test("clear");
    insert_entity_to_db(&diary_entity(), &db_config).unwrap();
    insert_entity_to_db(&diary_entity(), &db_config).unwrap();
    clear_db(&db_config).unwrap();
    let entries =
        rust_doc_db::doc_db::get_entries_from_db("1 = 1", &Vec::new(), &db_config).unwrap();
    assert_eq!(entries.len(), 0);
}

#[test]
fn tagging_twice_leaves_the_tag_exactly_once() {
    let db_config = setup_test("tag_twice");
    let (entity_id, _) = insert_entity_to_db(&diary_entity(), &db_config).unwrap();
    tag_entity(&entity_id, "known", &db_config).unwrap();
    let second = tag_entity(&entity_id, "known", &db_config).unwrap();
    assert!(second.is_none());

    let entry = get_entry_from_db(&entity_id, &db_config).unwrap().unwrap();
    let occurrences = tags_field(&entry.entity)
        .iter()
        .filter(|tag| tag.as_str() == "known")
        .count();
    assert_eq!(occurrences, 1);
}

#[test]
fn untagging_an_absent_tag_changes_nothing() {
    let db_config = setup_test("untag_absent");
    let (entity_id, _) = insert_entity_to_db(&diary_entity(), &db_config).unwrap();
    let before = get_entry_from_db(&entity_id, &db_config).unwrap().unwrap();

    let outcome = rust_doc_db::doc_db::untag_entity(&entity_id, "never-added", &db_config).unwrap();
    assert!(outcome.is_none());

    let after = get_entry_from_db(&entity_id, &db_config).unwrap().unwrap();
    assert_eq!(
        rust_doc_db::json::to_json(&after.entity),
        rust_doc_db::json::to_json(&before.entity)
    );
}

#[test]
fn tagging_a_missing_entity_is_a_storage_error() {
    let db_config = setup_test("tag_missing");
    let missing = rust_doc_db::ident::Ulid(7);
    let err = tag_entity(&missing, "known", &db_config).unwrap_err();
    let text = err.to_display_string();
    assert!(text.starts_with("SqlStorageError"));
    assert!(text.contains("Unable to tag entity"));
}

#[test]
fn every_error_kind_renders_with_its_name() {
    let internal = DocDbError::internal("boom", "?");
    assert_eq!(internal.to_display_string(), "InternalError: [?]: boom");
    let file = DocDbError::file_storage("gone", "io::Error");
    assert_eq!(file.to_display_string(), "FileStorageError: [io::Error]: gone");
    let sql = DocDbError::sql_storage("locked", "sqlite::Error");
    assert_eq!(sql.to_display_string(), "SqlStorageError: [sqlite::Error]: locked");
}
