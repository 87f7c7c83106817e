//! A generator of plausible random people for seeding the store: names
//! and streets are drawn from fixed lists, house and flat numbers from
//! fixed ranges, and phone numbers take a fixed fifteen-character form.
use vstd::prelude::*;

use crate::pim::Address;
use crate::pim::Person;
use crate::strings::dec_digit;
use crate::strings::push_char;

verus! {

/// Relies on rand::random_range: one number drawn uniformly from the
/// half-open range; nothing holds of it beyond its bounds.
#[verifier::external_body]
fn random_below(lo: u64, hi: u64) -> (r: u64)
    requires
        lo < hi,
    ensures
        lo <= r < hi,
{
    rand::random_range(lo..hi)
}

/// Whether `s` is one of the generator's first names.
pub open spec fn is_firstname(s: Seq<char>) -> bool {
    s == "Artur"@ || s == "Dawid"@ || s == "Jakub"@ || s == "Jan"@ || s == "Kamil"@ || s
        == "Krzysztof"@ || s == "Łukasz"@ || s == "Marcin"@ || s == "Marek"@ || s == "Mateusz"@
        || s == "Michał"@ || s == "Paweł"@ || s == "Piotr"@ || s == "Stanisław"@ || s == "Stefan"@
        || s == "Szymon"@
}

/// Whether `s` is one of the generator's last names.
pub open spec fn is_lastname(s: Seq<char>) -> bool {
    s == "Kowalski"@ || s == "Nowak"@ || s == "Wiśniewski"@ || s == "Malinowski"@ || s
        == "Iksiński"@
}

/// Whether `s` is one of the generator's street names.
pub open spec fn is_street(s: Seq<char>) -> bool {
    s == "Słoneczna"@ || s == "Kościuszki"@ || s == "Kręta"@ || s == "Poziomkowa"@ || s
        == "Marszałkowska"@ || s == "Obrońców Helu"@
}

/// The generator's first names.
pub fn firstnames() -> (r: Vec<String>)
    ensures
        r@.len() == 16,
        forall|i: int| 0 <= i < 16 ==> is_firstname((#[trigger] r@[i])@),
{
    let mut v: Vec<String> = Vec::new();
    v.push("Artur".to_owned());
    v.push("Dawid".to_owned());
    v.push("Jakub".to_owned());
    v.push("Jan".to_owned());
    v.push("Kamil".to_owned());
    v.push("Krzysztof".to_owned());
    v.push("Łukasz".to_owned());
    v.push("Marcin".to_owned());
    v.push("Marek".to_owned());
    v.push("Mateusz".to_owned());
    v.push("Michał".to_owned());
    v.push("Paweł".to_owned());
    v.push("Piotr".to_owned());
    v.push("Stanisław".to_owned());
    v.push("Stefan".to_owned());
    v.push("Szymon".to_owned());
    v
}

/// The generator's last names.
pub fn lastnames() -> (r: Vec<String>)
    ensures
        r@.len() == 5,
        forall|i: int| 0 <= i < 5 ==> is_lastname((#[trigger] r@[i])@),
{
    let mut v: Vec<String> = Vec::new();
    v.push("Kowalski".to_owned());
    v.push("Nowak".to_owned());
    v.push("Wiśniewski".to_owned());
    v.push("Malinowski".to_owned());
    v.push("Iksiński".to_owned());
    v
}

/// The generator's street names.
pub fn streets() -> (r: Vec<String>)
    ensures
        r@.len() == 6,
        forall|i: int| 0 <= i < 6 ==> is_street((#[trigger] r@[i])@),
{
    let mut v: Vec<String> = Vec::new();
    v.push("Słoneczna".to_owned());
    v.push("Kościuszki".to_owned());
    v.push("Kręta".to_owned());
    v.push("Poziomkowa".to_owned());
    v.push("Marszałkowska".to_owned());
    v.push("Obrońców Helu".to_owned());
    v
}

/// What the generator promises of an address.
pub open spec fn address_generated(a: Address) -> bool {
    is_street(a.street@) && 1 <= a.home_number < 100 && 1 <= a.flat_number < 30
}

/// What the generator promises of a person.
pub open spec fn person_generated(p: Person) -> bool {
    is_firstname(p.firstname@) && is_lastname(p.lastname@) && p.addresses@.len() == 1
        && address_generated(p.addresses@[0]) && p.phones@.len() == 1 && p.phones@[0]@.len() == 15
}

/// Appends exactly three decimal digits: `n` zero-padded to width 3.
fn push_3_digits(out: &mut String, n: u64)
    requires
        n < 1000,
    ensures
        final(out)@.len() == old(out)@.len() + 3,
{
    let d1 = n / 100;
    let d2 = (n / 10) % 10;
    let d3 = n % 10;
    push_char(out, dec_digit_char_local(d1));
    push_char(out, dec_digit_char_local(d2));
    push_char(out, dec_digit_char_local(d3));
}

fn dec_digit_char_local(d: u64) -> (c: char)
    requires
        d < 10,
    ensures
        c == dec_digit(d as int),
{
    match d {
        0 => '0',
        1 => '1',
        2 => '2',
        3 => '3',
        4 => '4',
        5 => '5',
        6 => '6',
        7 => '7',
        8 => '8',
        _ => '9',
    }
}

/// A random phone number: `+48 `, then three dash-separated groups of
/// three digits — fifteen characters in all.
fn get_random_phone_number() -> (r: String)
    ensures
        r@.len() == 15,
{
    let mut out = "+48 ".to_owned();
    proof {
        reveal_strlit("+48 ");
    }
    push_3_digits(&mut out, random_below(100, 999));
    push_char(&mut out, '-');
    push_3_digits(&mut out, random_below(0, 999));
    push_char(&mut out, '-');
    push_3_digits(&mut out, random_below(0, 999));
    out
}

/// A random address from the fixed streets and number ranges.
fn get_random_address() -> (r: Address)
    ensures
        address_generated(r),
{
    let all_streets = streets();
    let idx = random_below(0, 6) as usize;
    Address {
        street: all_streets[idx].clone(),
        home_number: random_below(1, 100) as i32,
        flat_number: random_below(1, 30) as i32,
    }
}

/// A random person: one address and one phone number, names from the
/// fixed lists.
fn get_random_person() -> (r: Person)
    ensures
        person_generated(r),
{
    let all_firstnames = firstnames();
    let all_lastnames = lastnames();
    let fi = random_below(0, 16) as usize;
    let li = random_below(0, 5) as usize;
    let mut addresses: Vec<Address> = Vec::new();
    addresses.push(get_random_address());
    let mut phones: Vec<String> = Vec::new();
    phones.push(get_random_phone_number());
    Person {
        firstname: all_firstnames[fi].clone(),
        lastname: all_lastnames[li].clone(),
        addresses,
        phones,
    }
}

/// `count` random people.
pub fn generate_people(count: u32) -> (r: Vec<Person>)
    ensures
        r@.len() == count as int,
        forall|i: int| 0 <= i < r@.len() ==> person_generated(#[trigger] r@[i]),
{
    let mut people: Vec<Person> = Vec::new();
    let mut i: u32 = 0;
    while i < count
        invariant
            i <= count,
            people@.len() == i as int,
            forall|j: int| 0 <= j < people@.len() ==> person_generated(#[trigger] people@[j]),
        decreases count - i,
    {
        people.push(get_random_person());
        i = i + 1;
    }
    people
}

} // verus!
