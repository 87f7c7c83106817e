//! A small personal-information domain on top of the store: people
//! with addresses and phone numbers, and a query for the phones of
//! everyone with a given first name.
use vstd::prelude::*;

use crate::doc_db::get_entries_from_db;
use crate::doc_db::DbConfig;
use crate::errors::DocDbResult;
use crate::model::DocDbEntry;
use crate::strings::lex_lt;
use crate::strings::str_eq;
use crate::tags::arr_has_str;
use crate::value::lemma_arr_view;
use crate::value::lemma_obj_view;
use crate::value::lemma_wf_arr;
use crate::value::lemma_wf_fields;
use crate::value::lookup;
use crate::value::arr_view;
use crate::value::obj_view;
use crate::value::wf;
use crate::value::SpecValue;
use crate::value::Value;

verus! {

pub struct Person {
    pub firstname: String,
    pub lastname: String,
    pub addresses: Vec<Address>,
    pub phones: Vec<String>,
}

pub struct Address {
    pub street: String,
    pub home_number: i32,
    pub flat_number: i32,
}

/// The entity form of an address: a mapping with its keys in sorted
/// order.
pub open spec fn address_view(a: Address) -> SpecValue {
    SpecValue::Obj(
        seq![
            ("flat_number"@, SpecValue::Int(a.flat_number as int)),
            ("home_number"@, SpecValue::Int(a.home_number as int)),
            ("street"@, SpecValue::Str(a.street@)),
        ],
    )
}

/// The entity form of a person: a mapping with its keys in sorted
/// order.
pub open spec fn person_view(p: Person) -> SpecValue {
    SpecValue::Obj(
        seq![
            ("addresses"@, SpecValue::Arr(Seq::new(p.addresses@.len(), |i: int| address_view(p.addresses@[i])))),
            ("firstname"@, SpecValue::Str(p.firstname@)),
            ("lastname"@, SpecValue::Str(p.lastname@)),
            ("phones"@, SpecValue::Arr(Seq::new(p.phones@.len(), |i: int| SpecValue::Str(p.phones@[i]@)))),
        ],
    )
}

/// The entity value for one address.
pub fn address_to_value(a: &Address) -> (r: Value)
    ensures
        r@ == address_view(*a),
        wf(r@),
{
    let mut fields: Vec<(String, Value)> = Vec::new();
    fields.push(("flat_number".to_owned(), Value::Int(a.flat_number as i64)));
    fields.push(("home_number".to_owned(), Value::Int(a.home_number as i64)));
    fields.push(("street".to_owned(), Value::Str(a.street.clone())));
    let r = Value::Obj(fields);
    proof {
        lemma_obj_view(fields@);
        assert(obj_view(fields@) =~= address_view(*a)->Obj_0);
        reveal_strlit("flat_number");
        reveal_strlit("home_number");
        reveal_strlit("street");
        assert(lex_lt("flat_number"@, "home_number"@));
        assert(lex_lt("home_number"@, "street"@));
        let fs = address_view(*a)->Obj_0;
        assert(crate::value::obj_keys_sorted(fs)) by {
            assert(fs[0].0 == "flat_number"@ && fs[1].0 == "home_number"@ && fs[2].0
                == "street"@);
        }
        lemma_wf_fields(fs);
    }
    r
}

/// The entity value for one person, ready to insert.
pub fn person_to_value(p: &Person) -> (r: Value)
    ensures
        r@ == person_view(*p),
        wf(r@),
{
    let mut addresses: Vec<Value> = Vec::new();
    let mut i: usize = 0;
    while i < p.addresses.len()
        invariant
            i <= p.addresses.len(),
            addresses@.len() == i as int,
            forall|j: int|
                0 <= j < i as int ==> #[trigger] addresses@[j]@ == address_view(p.addresses@[j])
                    && wf(addresses@[j]@),
        decreases p.addresses.len() - i,
    {
        addresses.push(address_to_value(&p.addresses[i]));
        i = i + 1;
    }
    let mut phones: Vec<Value> = Vec::new();
    let mut k: usize = 0;
    while k < p.phones.len()
        invariant
            k <= p.phones.len(),
            phones@.len() == k as int,
            forall|j: int|
                0 <= j < k as int ==> #[trigger] phones@[j]@ == SpecValue::Str(p.phones@[j]@),
        decreases p.phones.len() - k,
    {
        phones.push(Value::Str(p.phones[k].clone()));
        k = k + 1;
    }
    let mut fields: Vec<(String, Value)> = Vec::new();
    fields.push(("addresses".to_owned(), Value::Arr(addresses)));
    fields.push(("firstname".to_owned(), Value::Str(p.firstname.clone())));
    fields.push(("lastname".to_owned(), Value::Str(p.lastname.clone())));
    fields.push(("phones".to_owned(), Value::Arr(phones)));
    let r = Value::Obj(fields);
    proof {
        lemma_obj_view(fields@);
        lemma_arr_view(addresses@);
        lemma_arr_view(phones@);
        assert(arr_view(addresses@) =~= Seq::new(
            p.addresses@.len(),
            |i: int| address_view(p.addresses@[i]),
        ));
        assert(arr_view(phones@) =~= Seq::new(
            p.phones@.len(),
            |i: int| SpecValue::Str(p.phones@[i]@),
        ));
        assert(obj_view(fields@) =~= person_view(*p)->Obj_0);
        reveal_strlit("addresses");
        reveal_strlit("firstname");
        reveal_strlit("lastname");
        reveal_strlit("phones");
        assert(lex_lt("addresses"@, "firstname"@));
        assert(lex_lt("firstname"@, "lastname"@));
        assert(lex_lt("lastname"@, "phones"@));
        let fs = person_view(*p)->Obj_0;
        assert(crate::value::obj_keys_sorted(fs)) by {
            assert(fs[0].0 == "addresses"@ && fs[1].0 == "firstname"@ && fs[2].0 == "lastname"@
                && fs[3].0 == "phones"@);
        }
        assert(wf(fs[0].1)) by {
            lemma_wf_arr(arr_view(addresses@));
        }
        assert(wf(fs[3].1)) by {
            lemma_wf_arr(arr_view(phones@));
        }
        lemma_wf_fields(fs);
    }
    r
}

/// The `phones` array of an entity, or empty when the entity is not a
/// mapping or holds no array there.
pub open spec fn phones_of(e: SpecValue) -> Seq<SpecValue> {
    match e {
        SpecValue::Obj(fs) => match lookup(fs, "phones"@) {
            Some(SpecValue::Arr(ts)) => ts,
            _ => Seq::empty(),
        },
        _ => Seq::empty(),
    }
}

/// The string elements of an array, in order; other values are skipped.
pub open spec fn str_items(ts: Seq<SpecValue>) -> Seq<Seq<char>>
    decreases ts.len(),
{
    if ts.len() == 0 {
        Seq::empty()
    } else if ts[0] is Str {
        seq![ts[0]->Str_0] + str_items(ts.drop_first())
    } else {
        str_items(ts.drop_first())
    }
}

/// Every phone string of every entry, in entry order and then in each
/// entry's stored order.
pub open spec fn flat_phones(entries: Seq<DocDbEntry>) -> Seq<Seq<char>>
    decreases entries.len(),
{
    if entries.len() == 0 {
        Seq::empty()
    } else {
        str_items(phones_of(entries[0].entity@)) + flat_phones(entries.drop_first())
    }
}

/// The sequence with every repeat dropped: each string's first
/// occurrence stays in place, later ones go.
pub open spec fn first_occurrences(xs: Seq<Seq<char>>) -> Seq<Seq<char>>
    decreases xs.len(),
{
    if xs.len() == 0 {
        Seq::empty()
    } else if xs.drop_last().contains(xs.last()) {
        first_occurrences(xs.drop_last())
    } else {
        first_occurrences(xs.drop_last()).push(xs.last())
    }
}

/// The character sequences of a string collection.
pub open spec fn str_views(xs: Seq<String>) -> Seq<Seq<char>> {
    Seq::new(xs.len(), |i: int| xs[i]@)
}

/// The string elements of joined arrays: the first part's, then the
/// second's.
proof fn lemma_str_items_app(a: Seq<SpecValue>, b: Seq<SpecValue>)
    ensures
        str_items(a + b) == str_items(a) + str_items(b),
    decreases a.len(),
{
    if a.len() == 0 {
        assert(a + b =~= b);
        assert(str_items(a) + str_items(b) =~= str_items(b));
    } else {
        assert((a + b).drop_first() =~= a.drop_first() + b);
        lemma_str_items_app(a.drop_first(), b);
        assert((a + b)[0] == a[0]);
        if a[0] is Str {
            assert(str_items(a + b) =~= str_items(a) + str_items(b));
        } else {
            assert(str_items(a + b) =~= str_items(a) + str_items(b));
        }
    }
}

/// The phones of joined entry sequences: the first part's, then the
/// second's.
proof fn lemma_flat_phones_app(a: Seq<DocDbEntry>, b: Seq<DocDbEntry>)
    ensures
        flat_phones(a + b) == flat_phones(a) + flat_phones(b),
    decreases a.len(),
{
    if a.len() == 0 {
        assert(a + b =~= b);
        assert(flat_phones(a) + flat_phones(b) =~= flat_phones(b));
    } else {
        assert((a + b).drop_first() =~= a.drop_first() + b);
        lemma_flat_phones_app(a.drop_first(), b);
        assert((a + b)[0] == a[0]);
        assert(flat_phones(a + b) =~= flat_phones(a) + flat_phones(b));
    }
}

/// Dropping repeats keeps exactly the strings that occur.
proof fn lemma_first_occurrences_membership(xs: Seq<Seq<char>>, s: Seq<char>)
    ensures
        first_occurrences(xs).contains(s) <==> xs.contains(s),
    decreases xs.len(),
{
    if xs.len() > 0 {
        lemma_first_occurrences_membership(xs.drop_last(), s);
        if xs.contains(s) && !xs.drop_last().contains(s) {
            let i = choose|i: int| 0 <= i < xs.len() && xs[i] == s;
            if i < xs.len() - 1 {
                assert(xs.drop_last()[i] == s);
            }
            assert(xs.last() == s);
        }
        if xs.drop_last().contains(s) {
            let i = choose|i: int| 0 <= i < xs.drop_last().len() && xs.drop_last()[i] == s;
            assert(xs[i] == s);
        }
        if !xs.drop_last().contains(xs.last()) {
            let fo = first_occurrences(xs);
            assert(fo == first_occurrences(xs.drop_last()).push(xs.last()));
            if fo.contains(s) {
                let i = choose|i: int| 0 <= i < fo.len() && fo[i] == s;
                if i < fo.len() - 1 {
                    assert(first_occurrences(xs.drop_last())[i] == s);
                }
            }
            if xs.contains(s) && s == xs.last() {
                assert(fo[fo.len() - 1] == s);
            }
            if first_occurrences(xs.drop_last()).contains(s) {
                let i = choose|i: int|
                    0 <= i < first_occurrences(xs.drop_last()).len() && first_occurrences(
                        xs.drop_last(),
                    )[i] == s;
                assert(fo[i] == s);
            }
        }
    }
}

/// Whether the entity's `phones` array holds the string `ph`.
pub open spec fn entity_has_phone(e: SpecValue, ph: Seq<char>) -> bool {
    e is Obj && (lookup(e->Obj_0, "phones"@) matches Some(SpecValue::Arr(ts)) && arr_has_str(
        ts,
        ph,
    ))
}

/// Whether some entry's `phones` array holds the string `ph`.
pub open spec fn some_entry_has_phone(entries: Seq<DocDbEntry>, ph: Seq<char>) -> bool {
    exists|k: int| 0 <= k < entries.len() && entity_has_phone((#[trigger] entries[k]).entity@, ph)
}

/// Whether some string of the collection equals `s`.
fn contains_str(out: &Vec<String>, s: &str) -> (r: bool)
    ensures
        r == exists|i: int| 0 <= i < out@.len() && (#[trigger] out@[i])@ == s@,
{
    let mut i: usize = 0;
    while i < out.len()
        invariant
            i <= out.len(),
            forall|j: int| 0 <= j < i ==> (#[trigger] out@[j])@ != s@,
        decreases out.len() - i,
    {
        if str_eq(out[i].as_str(), s) {
            return true;
        }
        i = i + 1;
    }
    false
}

/// The distinct phone numbers found in the entries, first occurrence
/// first: the result is exactly the sequence of every entry's phone
/// strings, in entry order and stored order, with each repeat after
/// its first occurrence dropped.
pub fn phones_from_entries(entries: &Vec<DocDbEntry>) -> (r: Vec<String>)
    ensures
        forall|i: int, j: int| 0 <= i < j < r@.len() ==> (#[trigger] r@[i])@ != (#[trigger] r@[j])@,
        forall|i: int|
            0 <= i < r@.len() ==> some_entry_has_phone(entries@, (#[trigger] r@[i])@),
        forall|k: int, ph: Seq<char>|
            0 <= k < entries@.len() && #[trigger] entity_has_phone(entries@[k].entity@, ph)
                ==> exists|i: int| 0 <= i < r@.len() && (#[trigger] r@[i])@ == ph,
        str_views(r@) == first_occurrences(flat_phones(entries@)),
{
    let mut out: Vec<String> = Vec::new();
    let mut k: usize = 0;
    proof {
        assert(entries@.take(0) =~= Seq::<DocDbEntry>::empty());
        assert(str_views(out@) =~= Seq::<Seq<char>>::empty());
    }
    while k < entries.len()
        invariant
            k <= entries.len(),
            forall|i: int, j: int|
                0 <= i < j < out@.len() ==> (#[trigger] out@[i])@ != (#[trigger] out@[j])@,
            forall|i: int|
                0 <= i < out@.len() ==> some_entry_has_phone(entries@, (#[trigger] out@[i])@),
            forall|k2: int, ph: Seq<char>|
                0 <= k2 < k && #[trigger] entity_has_phone(entries@[k2].entity@, ph) ==> exists|
                    i: int,
                |
                    0 <= i < out@.len() && (#[trigger] out@[i])@ == ph,
            str_views(out@) == first_occurrences(flat_phones(entries@.take(k as int))),
        decreases entries.len() - k,
    {
        let entity = &entries[k].entity;
        match entity.get_field("phones") {
            Some(phones_value) => {
                match phones_value {
                    Value::Arr(items) => {
                        let ghost ts = arr_view(items@);
                        proof {
                            lemma_arr_view(items@);
                        }
                        let mut j: usize = 0;
                        while j < items.len()
                            invariant
                                j <= items.len(),
                                k < entries.len(),
                                ts == arr_view(items@),
                                ts.len() == items@.len(),
                                forall|x: int|
                                    0 <= x < ts.len() ==> #[trigger] ts[x] == items@[x]@,
                                entries@[k as int].entity@ is Obj,
                                lookup(entries@[k as int].entity@->Obj_0, "phones"@) == Some(
                                    SpecValue::Arr(ts),
                                ),
                                forall|i: int, j2: int|
                                    0 <= i < j2 < out@.len() ==> (#[trigger] out@[i])@ != (
                                    #[trigger] out@[j2])@,
                                forall|i: int|
                                    0 <= i < out@.len() ==> some_entry_has_phone(
                                        entries@,
                                        (#[trigger] out@[i])@,
                                    ),
                                forall|k2: int, ph: Seq<char>|
                                    0 <= k2 < k && #[trigger] entity_has_phone(
                                        entries@[k2].entity@,
                                        ph,
                                    ) ==> exists|i: int|
                                        0 <= i < out@.len() && (#[trigger] out@[i])@ == ph,
                                forall|x: int|
                                    0 <= x < j ==> ((#[trigger] ts[x]) matches SpecValue::Str(ph)
                                        ==> exists|i: int|
                                        0 <= i < out@.len() && (#[trigger] out@[i])@ == ph),
                                str_views(out@) == first_occurrences(
                                    flat_phones(entries@.take(k as int)) + str_items(
                                        ts.take(j as int),
                                    ),
                                ),
                            decreases items.len() - j,
                        {
                            let ghost pre = flat_phones(entries@.take(k as int)) + str_items(
                                ts.take(j as int),
                            );
                            proof {
                                assert(ts.take(j as int + 1) =~= ts.take(j as int) + seq![
                                    ts[j as int],
                                ]);
                                lemma_str_items_app(ts.take(j as int), seq![ts[j as int]]);
                                assert(seq![ts[j as int]].drop_first() =~= Seq::<
                                    SpecValue,
                                >::empty());
                            }
                            match &items[j] {
                                Value::Str(s) => {
                                    proof {
                                        assert(ts[j as int] == SpecValue::Str(s@));
                                        assert(str_items(Seq::<SpecValue>::empty()) == Seq::<
                                            Seq<char>,
                                        >::empty());
                                        assert(seq![s@] + Seq::<Seq<char>>::empty() =~= seq![
                                            s@,
                                        ]);
                                        assert(str_items(seq![ts[j as int]]) =~= seq![s@]);
                                        assert(flat_phones(entries@.take(k as int)) + str_items(
                                            ts.take(j as int + 1),
                                        ) =~= pre.push(s@));
                                        assert((pre.push(s@)).drop_last() =~= pre);
                                        assert((pre.push(s@)).last() == s@);
                                        lemma_first_occurrences_membership(pre, s@);
                                        assert(str_views(out@).contains(s@) <==> (exists|i: int|
                                            0 <= i < out@.len() && (#[trigger] out@[i])@
                                                == s@)) by {
                                            if str_views(out@).contains(s@) {
                                                let i = choose|i: int|
                                                    0 <= i < str_views(out@).len() && str_views(
                                                        out@,
                                                    )[i] == s@;
                                                assert(out@[i]@ == s@);
                                            }
                                            if exists|i: int|
                                                0 <= i < out@.len() && (#[trigger] out@[i])@
                                                    == s@ {
                                                let i = choose|i: int|
                                                    0 <= i < out@.len() && (#[trigger] out@[i])@
                                                        == s@;
                                                assert(str_views(out@)[i] == s@);
                                            }
                                        }
                                    }
                                    if !contains_str(&out, s.as_str()) {
                                        let ghost prev_out = out@;
                                        out.push(s.clone());
                                        proof {
                                            assert(str_views(out@) =~= str_views(prev_out).push(
                                                s@,
                                            ));
                                            assert(!pre.contains(s@));
                                            assert(forall|i: int|
                                                0 <= i < prev_out.len() ==> #[trigger] out@[i]
                                                    == prev_out[i]);
                                            assert((out@[out@.len() - 1])@ == s@);
                                            assert(entity_has_phone(
                                                entries@[k as int].entity@,
                                                s@,
                                            )) by {
                                                assert(ts[j as int] == SpecValue::Str(s@));
                                            }
                                            assert(some_entry_has_phone(entries@, s@)) by {
                                                assert(entity_has_phone(
                                                    (entries@[k as int]).entity@,
                                                    s@,
                                                ));
                                            }
                                            assert forall|i: int|
                                                0 <= i < out@.len() implies some_entry_has_phone(
                                                entries@,
                                                (#[trigger] out@[i])@,
                                            ) by {
                                                if i < prev_out.len() {
                                                    assert(out@[i] == prev_out[i]);
                                                } else {
                                                    assert(out@[i]@ == s@);
                                                }
                                            }
                                            assert forall|k2: int, ph: Seq<char>|
                                                0 <= k2 < k && #[trigger] entity_has_phone(
                                                    entries@[k2].entity@,
                                                    ph,
                                                ) implies exists|i: int|
                                                0 <= i < out@.len() && (#[trigger] out@[i])@
                                                    == ph by {
                                                let i = choose|i: int|
                                                    0 <= i < prev_out.len() && (
                                                    #[trigger] prev_out[i])@ == ph;
                                                assert(out@[i] == prev_out[i]);
                                            }
                                            assert forall|x: int|
                                                0 <= x < j + 1 implies ((#[trigger] ts[x]) matches
                                                SpecValue::Str(ph) ==> exists|i: int|
                                                    0 <= i < out@.len() && (#[trigger] out@[i])@
                                                        == ph) by {
                                                if x < j {
                                                    if ts[x] is Str {
                                                        let phx = ts[x]->Str_0;
                                                        let i = choose|i: int|
                                                            0 <= i < prev_out.len() && (
                                                            #[trigger] prev_out[i])@ == phx;
                                                        assert(out@[i] == prev_out[i]);
                                                    }
                                                } else {
                                                    assert(ts[x] == SpecValue::Str(s@));
                                                    assert((out@[out@.len() - 1])@ == s@);
                                                }
                                            }
                                        }
                                    } else {
                                        proof {
                                            assert(ts[j as int] == SpecValue::Str(s@));
                                            assert(str_views(out@).contains(s@));
                                            assert(pre.contains(s@));
                                            assert(first_occurrences(pre.push(s@))
                                                == first_occurrences(pre));
                                        }
                                    }
                                },
                                _ => {
                                    proof {
                                        assert(!(ts[j as int] is Str));
                                        assert(str_items(Seq::<SpecValue>::empty()) == Seq::<
                                            Seq<char>,
                                        >::empty());
                                        assert(str_items(seq![ts[j as int]]) =~= Seq::<
                                            Seq<char>,
                                        >::empty());
                                        assert(flat_phones(entries@.take(k as int)) + str_items(
                                            ts.take(j as int + 1),
                                        ) =~= pre);
                                    }
                                },
                            }
                            j = j + 1;
                        }
                        proof {
                            assert forall|ph: Seq<char>|
                                #[trigger] entity_has_phone(
                                    entries@[k as int].entity@,
                                    ph,
                                ) implies exists|i: int|
                                0 <= i < out@.len() && (#[trigger] out@[i])@ == ph by {
                                let x = choose|x: int|
                                    0 <= x < ts.len() && ts[x] == SpecValue::Str(ph);
                                assert(ts[x] matches SpecValue::Str(p2) && p2 == ph);
                            }
                            assert(ts.take(items@.len() as int) =~= ts);
                            assert(entries@.take(k as int + 1) =~= entries@.take(k as int)
                                + seq![entries@[k as int]]);
                            lemma_flat_phones_app(entries@.take(k as int), seq![
                                entries@[k as int],
                            ]);
                            assert(seq![entries@[k as int]].drop_first() =~= Seq::<
                                DocDbEntry,
                            >::empty());
                            assert(phones_of(entries@[k as int].entity@) == ts);
                            assert(flat_phones(Seq::<DocDbEntry>::empty()) == Seq::<
                                Seq<char>,
                            >::empty());
                            assert(str_items(ts) + Seq::<Seq<char>>::empty() =~= str_items(ts));
                            assert(flat_phones(seq![entries@[k as int]]) =~= str_items(ts));
                            assert(flat_phones(entries@.take(k as int + 1)) =~= flat_phones(
                                entries@.take(k as int),
                            ) + str_items(ts));
                        }
                    },
                    _ => {
                        proof {
                            lemma_no_phone_entry(entries@, k as int, out@);
                        }
                    },
                }
            },
            None => {
                proof {
                    lemma_no_phone_entry(entries@, k as int, out@);
                }
            },
        }
        k = k + 1;
    }
    proof {
        assert(entries@.take(entries@.len() as int) =~= entries@);
    }
    out
}

/// An entry without a usable `phones` array adds nothing to the flat
/// phone sequence.
proof fn lemma_no_phone_entry(entries: Seq<DocDbEntry>, k: int, outv: Seq<String>)
    requires
        0 <= k < entries.len(),
        phones_of(entries[k].entity@) == Seq::<SpecValue>::empty(),
        str_views(outv) == first_occurrences(flat_phones(entries.take(k))),
    ensures
        str_views(outv) == first_occurrences(flat_phones(entries.take(k + 1))),
{
    assert(entries.take(k + 1) =~= entries.take(k) + seq![entries[k]]);
    lemma_flat_phones_app(entries.take(k), seq![entries[k]]);
    assert(seq![entries[k]].drop_first() =~= Seq::<DocDbEntry>::empty());
    assert(str_items(Seq::<SpecValue>::empty()) == Seq::<Seq<char>>::empty());
    assert(flat_phones(Seq::<DocDbEntry>::empty()) == Seq::<Seq<char>>::empty());
    assert(Seq::<Seq<char>>::empty() + Seq::<Seq<char>>::empty() =~= Seq::<Seq<char>>::empty());
    assert(flat_phones(seq![entries[k]]) =~= Seq::<Seq<char>>::empty());
    assert(flat_phones(entries.take(k + 1)) =~= flat_phones(entries.take(k)));
}

/// The distinct phone numbers of everyone whose `firstname` equals the
/// given name, in the order the store returns the matching entities:
/// for some sequence of well-formed stored entries — the engine picks
/// which — the result is their phones in order, repeats dropped.
pub fn get_phones_of_people_by_firstname(firstname: &str, db_config: &DbConfig) -> (r: DocDbResult<
    Vec<String>,
>)
    ensures
        r matches Ok(phones) ==> forall|i: int, j: int|
            0 <= i < j < phones@.len() ==> (#[trigger] phones@[i])@ != (#[trigger] phones@[j])@,
        r matches Ok(phones) ==> (exists|entries: Seq<DocDbEntry>|
            (forall|i: int| 0 <= i < entries.len() ==> wf((#[trigger] entries[i]).entity@))
                && str_views(phones@) == first_occurrences(flat_phones(entries))),
        r is Err ==> r->Err_0 is SqlStorageError || r->Err_0 is InternalError,
{
    let mut params: Vec<(String, String)> = Vec::new();
    params.push(("firstname".to_owned(), firstname.to_owned()));
    let entries = match get_entries_from_db(
        "json_extract(content, '$.firstname') = :firstname",
        &params,
        db_config,
    ) {
        Ok(entries) => entries,
        Err(e) => {
            return Err(e);
        },
    };
    let phones = phones_from_entries(&entries);
    proof {
        assert((forall|i: int| 0 <= i < entries@.len() ==> wf((#[trigger] entries@[i]).entity@))
            && str_views(phones@) == first_occurrences(flat_phones(entries@)));
    }
    Ok(phones)
}

} // verus!
