use rust_doc_db::ident::Ulid;
use rust_doc_db::json::from_json;
use rust_doc_db::json::to_json;
use rust_doc_db::sql_storage::entries_from_rows;
use rust_doc_db::pim::person_to_value;
use rust_doc_db::pim::Address;
use rust_doc_db::pim::Person;
use rust_doc_db::yaml::to_yaml;
use rust_doc_db::value::Value;

fn obj(fields: Vec<(&str, Value)>) -> Value {
    let mut v = Value::Obj(Vec::new());
    for (key, value) in fields {
        v.insert_field(key, value);
    }
    v
}

#[test]
fn identifier_rendering_round_trips() {
    let id = Ulid::new();
    let text = id.to_string();
    assert_eq!(text.len(), 26);
    let back = Ulid::from_string(text.as_str()).unwrap();
    assert_eq!(back, id);
}

#[test]
fn identifier_rejects_malformed_text() {
    assert!(Ulid::from_string("").is_err());
    assert!(Ulid::from_string("0123456789").is_err());
    assert!(Ulid::from_string("IIIIIIIIIIIIIIIIIIIIIIIIII").is_err());
    assert!(Ulid::from_string("ZZZZZZZZZZZZZZZZZZZZZZZZZZ").is_err());
    assert_eq!(
        Ulid::from_string("00000000000000000000000000").unwrap(),
        Ulid(0)
    );
}

#[test]
fn canonical_json_round_trips() {
    let entity = obj(vec![
        ("empty", obj(vec![])),
        ("items", Value::Arr(vec![Value::Int(-7), Value::Null, Value::Bool(false)])),
        ("text", Value::Str("with \"quotes\" and \\slashes\\ and\ncontrol".to_string())),
    ]);
    let text = to_json(&entity);
    let back = from_json(text.as_str()).unwrap();
    assert_eq!(to_json(&back), text);
}

#[test]
fn canonical_json_form_is_compact_and_sorted() {
    let entity = obj(vec![
        ("title", Value::Str("My day".to_string())),
        ("date", Value::Str("2021-01-01".to_string())),
        ("count", Value::Int(3)),
    ]);
    assert_eq!(
        to_json(&entity),
        "{\"count\":3,\"date\":\"2021-01-01\",\"title\":\"My day\"}"
    );
}

#[test]
fn json_reader_accepts_only_canonical_text() {
    assert!(from_json("{\"a\":1}").is_some());
    assert!(from_json("{\"a\": 1}").is_none());
    assert!(from_json("{\"b\":1,\"a\":2}").is_none());
    assert!(from_json("{\"a\":01}").is_none());
    assert!(from_json("{\"a\":1}extra").is_none());
    assert!(from_json("-0").is_none());
    assert!(from_json("9223372036854775807").is_some());
    assert!(from_json("-9223372036854775808").is_some());
    assert!(from_json("9223372036854775808").is_none());
}

#[test]
fn canonical_json_uses_short_escapes_for_common_controls() {
    let entity = obj(vec![("text", Value::Str("a\tb\nc\u{01}".to_string()))]);
    let text = to_json(&entity);
    assert_eq!(text, "{\"text\":\"a\\tb\\nc\\u0001\"}");
    let back = from_json(text.as_str()).unwrap();
    assert!(back.deep_eq(&entity));
    assert!(from_json("\"\\u0009\"").is_none());
    assert!(from_json("\"\\u0041\"").is_none());
}

#[test]
fn mirror_quotes_number_and_keyword_shaped_strings() {
    let entity = obj(vec![
        ("count", Value::Str("123".to_string())),
        ("date", Value::Str("2021-01-01".to_string())),
        ("flag", Value::Str("true".to_string())),
        ("nil", Value::Str("null".to_string())),
        ("rate", Value::Str("-1.5".to_string())),
    ]);
    assert_eq!(
        to_yaml(&entity),
        "count: \"123\"\ndate: 2021-01-01\nflag: \"true\"\nnil: \"null\"\nrate: \"-1.5\"\n"
    );
}

#[test]
fn decodable_rows_always_decode() {
    let entity = obj(vec![
        ("count", Value::Int(3)),
        ("name", Value::Str("Piotr".to_string())),
    ]);
    let id = Ulid(42);
    let rows = vec![(id.to_string(), to_json(&entity))];
    let entries = entries_from_rows(&rows).unwrap();
    assert_eq!(entries.len(), 1);
    assert_eq!(entries[0].id, id);
    assert!(entries[0].entity.deep_eq(&entity));
    let bad = vec![(id.to_string(), "{not json".to_string())];
    assert!(entries_from_rows(&bad).is_err());
}

#[test]
fn mirror_form_of_a_nested_person() {
    let person = Person {
        firstname: "Piotr".to_string(),
        lastname: "Nowak".to_string(),
        addresses: vec![Address {
            street: "Kręta".to_string(),
            home_number: 5,
            flat_number: 2,
        }],
        phones: vec!["+48 123 456 789".to_string()],
    };
    let value = person_to_value(&person);
    let expected = "addresses:\n-\n  flat_number: 2\n  home_number: 5\n  street: Kręta\nfirstname: Piotr\nlastname: Nowak\nphones:\n- +48 123 456 789\n";
    assert_eq!(to_yaml(&value), expected);
}

#[test]
fn mirror_quotes_what_cannot_stand_plain() {
    let entity = obj(vec![
        ("empty", Value::Str("".to_string())),
        ("plain", Value::Str("simple words".to_string())),
        ("tricky", Value::Str("needs: quoting".to_string())),
    ]);
    assert_eq!(
        to_yaml(&entity),
        "empty: \"\"\nplain: simple words\ntricky: \"needs: quoting\"\n"
    );
}
