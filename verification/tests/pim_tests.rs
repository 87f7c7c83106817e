use rust_doc_db::doc_db::clear_db;
use rust_doc_db::doc_db::insert_entity_to_db;
use rust_doc_db::doc_db::make_sure_db_exists;
use rust_doc_db::doc_db::DbConfig;
use rust_doc_db::ident::Ulid;
use rust_doc_db::pim::get_phones_of_people_by_firstname;
use rust_doc_db::pim::person_to_value;
use rust_doc_db::pim::Person;

fn get_test_config() -> DbConfig {
    DbConfig {
        sqlite_db_full_filename: "/tmp/rust_doc_db_pim.db".to_string(),
        text_db_path: "/tmp/rust_doc_db_pim_files/".to_string(),
    }
}

fn setup_test() {
    let db_config = get_test_config();
    make_sure_db_exists(&db_config).unwrap();
    let _ = clear_db(&db_config);
}

#[test]
fn can_query_phones_by_name() {
    setup_test();
    let db_config = get_test_config();

    let mut people = Vec::new();
    people.push(Person {
        firstname: "Piotr".to_string(),
        lastname: "Nowak".to_string(),
        phones: vec!["+48 123 456 789".to_string(), "+48 789 123 456".to_string()],
        addresses: Vec::new(),
    });
    people.push(Person {
        firstname: "Tomasz".to_string(),
        lastname: "Zawadzki".to_string(),
        phones: vec!["+48 123 333 444".to_string()],
        addresses: Vec::new(),
    });
    people.push(Person {
        firstname: "Piotr".to_string(),
        lastname: "Malinowski".to_string(),
        phones: vec!["+48 345 345 345".to_string()],
        addresses: Vec::new(),
    });

    let mut people_ids: Vec<Ulid> = Vec::new();
    for person in people {
        let json_person = person_to_value(&person);
        let (entity_id, _) = insert_entity_to_db(&json_person, &db_config).unwrap();
        people_ids.push(entity_id)
    }

    let phones = get_phones_of_people_by_firstname("Piotr", &db_config).unwrap();
    assert_eq!(phones.len(), 3);
    assert_eq!(phones[0], "+48 123 456 789");
    assert_eq!(phones[1], "+48 789 123 456");
    assert_eq!(phones[2], "+48 345 345 345");
}
