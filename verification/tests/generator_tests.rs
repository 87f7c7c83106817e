use rust_doc_db::fake_data_generator::firstnames;
use rust_doc_db::fake_data_generator::generate_people;
use rust_doc_db::fake_data_generator::lastnames;
use rust_doc_db::fake_data_generator::streets;

#[test]
fn can_generate_people() {
    let people = generate_people(2);
    assert_eq!(people.len(), 2);
    for person in people {
        assert!(firstnames().contains(&person.firstname));
        assert!(lastnames().contains(&person.lastname));
        assert!(!person.addresses.is_empty());
        for address in person.addresses {
            assert!(streets().contains(&address.street));
            assert!(address.home_number > 0);
            assert!(address.flat_number > 0);
        }
        assert!(!person.phones.is_empty());
        for phone in person.phones {
            assert_eq!(phone.len(), 15);
        }
    }
}
