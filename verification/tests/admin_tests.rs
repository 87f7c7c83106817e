use rust_doc_db::admin::mark_entity_as_important;
use rust_doc_db::admin::unmark_entity_as_important;
use rust_doc_db::admin::EntityMeta;
use rust_doc_db::doc_db::clear_db;
use rust_doc_db::doc_db::get_entry_from_db;
use rust_doc_db::doc_db::insert_entity_to_db;
use rust_doc_db::doc_db::make_sure_db_exists;
use rust_doc_db::doc_db::DbConfig;
use rust_doc_db::fake_data_generator;
use rust_doc_db::pim::person_to_value;
use rust_doc_db::value::Value;

fn get_test_config() -> DbConfig {
    DbConfig {
        sqlite_db_full_filename: "/tmp/rust_doc_db_admin.db".to_string(),
        text_db_path: "/tmp/rust_doc_db_admin_files/".to_string(),
    }
}

fn setup_test() {
    let db_config = get_test_config();
    make_sure_db_exists(&db_config).unwrap();
    let _ = clear_db(&db_config);
}

fn entity_meta(entity: &Value) -> EntityMeta {
    let mut tags: Vec<String> = Vec::new();
    if let Some(Value::Arr(items)) = entity.get_field("tags") {
        for item in items {
            if let Value::Str(text) = item {
                tags.push(text.clone());
            }
        }
    }
    EntityMeta { tags }
}

#[test]
fn admin_can_tag_untag_entities() {
    setup_test();
    let db_config = get_test_config();

    let people = fake_data_generator::generate_people(1);
    let person = people.first().unwrap();
    let json_person = person_to_value(person);

    let (entity_id, _) = insert_entity_to_db(&json_person, &db_config).unwrap();
    mark_entity_as_important(&entity_id, &db_config).unwrap();

    let db_entry_1 = get_entry_from_db(&entity_id, &db_config).unwrap().unwrap();
    let entity_as_meta_1 = entity_meta(&db_entry_1.entity);
    assert!(entity_as_meta_1.tags.contains(&"important".to_string()));

    unmark_entity_as_important(&entity_id, &db_config).unwrap();

    let db_entry_2 = get_entry_from_db(&entity_id, &db_config).unwrap().unwrap();
    let entity_as_meta_2 = entity_meta(&db_entry_2.entity);
    assert!(!entity_as_meta_2.tags.contains(&"important".to_string()));
}
