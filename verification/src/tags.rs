//! The tag helpers: a `tags` field holding an array of strings, with
//! idempotent addition and first-occurrence removal.
use vstd::prelude::*;

use crate::errors::DocDbError;
use crate::errors::DocDbResult;
use crate::value::arr_view;
use crate::value::lemma_arr_view;
use crate::value::lookup;
use crate::value::obj_set;
use crate::value::SpecValue;
use crate::value::Value;

verus! {

/// The strings-and-values array stored under `tags`, or empty when the
/// field is absent or not an array.
pub open spec fn tags_of(fs: Seq<(Seq<char>, SpecValue)>) -> Seq<SpecValue> {
    match lookup(fs, "tags"@) {
        Some(SpecValue::Arr(ts)) => ts,
        _ => Seq::empty(),
    }
}

/// Whether the array holds the string `t`.
pub open spec fn arr_has_str(ts: Seq<SpecValue>, t: Seq<char>) -> bool {
    exists|i: int| 0 <= i < ts.len() && ts[i] == SpecValue::Str(t)
}

/// How many elements of the array are the string `t`.
pub open spec fn count_str(ts: Seq<SpecValue>, t: Seq<char>) -> int
    decreases ts.len(),
{
    if ts.len() == 0 {
        0
    } else {
        count_str(ts.drop_last(), t) + if ts.last() == SpecValue::Str(t) {
            1int
        } else {
            0int
        }
    }
}

/// The array with its first occurrence of the string `t` removed.
pub open spec fn remove_first_str(ts: Seq<SpecValue>, t: Seq<char>) -> Seq<SpecValue>
    decreases ts.len(),
{
    if ts.len() == 0 {
        Seq::empty()
    } else if ts[0] == SpecValue::Str(t) {
        ts.drop_first()
    } else {
        seq![ts[0]] + remove_first_str(ts.drop_first(), t)
    }
}

/// The entity fields after adding tag `t`: an absent `tags` field is
/// initialized, a present tag is left alone, a non-array `tags` field
/// is not touched.
pub open spec fn spec_add_tag(fs: Seq<(Seq<char>, SpecValue)>, t: Seq<char>) -> Seq<
    (Seq<char>, SpecValue),
> {
    match lookup(fs, "tags"@) {
        None => obj_set(fs, "tags"@, SpecValue::Arr(seq![SpecValue::Str(t)])),
        Some(SpecValue::Arr(ts)) => if arr_has_str(ts, t) {
            fs
        } else {
            obj_set(fs, "tags"@, SpecValue::Arr(ts.push(SpecValue::Str(t))))
        },
        Some(_) => fs,
    }
}

/// Whether adding tag `t` changes the entity (and so needs a write).
pub open spec fn spec_add_tag_writes(fs: Seq<(Seq<char>, SpecValue)>, t: Seq<char>) -> bool {
    match lookup(fs, "tags"@) {
        None => true,
        Some(SpecValue::Arr(ts)) => !arr_has_str(ts, t),
        Some(_) => false,
    }
}

/// The entity fields after removing tag `t`: only a present occurrence
/// in an array-valued `tags` field is removed.
pub open spec fn spec_remove_tag(fs: Seq<(Seq<char>, SpecValue)>, t: Seq<char>) -> Seq<
    (Seq<char>, SpecValue),
> {
    match lookup(fs, "tags"@) {
        Some(SpecValue::Arr(ts)) => if arr_has_str(ts, t) {
            obj_set(fs, "tags"@, SpecValue::Arr(remove_first_str(ts, t)))
        } else {
            fs
        },
        _ => fs,
    }
}

/// Whether removing tag `t` changes the entity (and so needs a write).
pub open spec fn spec_remove_tag_writes(fs: Seq<(Seq<char>, SpecValue)>, t: Seq<char>) -> bool {
    match lookup(fs, "tags"@) {
        Some(SpecValue::Arr(ts)) => arr_has_str(ts, t),
        _ => false,
    }
}

/// An array holds `t` exactly when its count of `t` is positive.
pub proof fn lemma_count_has(ts: Seq<SpecValue>, t: Seq<char>)
    ensures
        arr_has_str(ts, t) <==> count_str(ts, t) > 0,
        count_str(ts, t) >= 0,
    decreases ts.len(),
{
    if ts.len() > 0 {
        lemma_count_has(ts.drop_last(), t);
        if arr_has_str(ts, t) {
            let i = choose|i: int| 0 <= i < ts.len() && ts[i] == SpecValue::Str(t);
            if i < ts.len() - 1 {
                assert(ts.drop_last()[i] == ts[i]);
                assert(arr_has_str(ts.drop_last(), t));
            }
        }
        if count_str(ts, t) > 0 {
            if ts.last() == SpecValue::Str(t) {
                assert(ts[ts.len() - 1] == SpecValue::Str(t));
            } else {
                let i = choose|i: int|
                    0 <= i < ts.drop_last().len() && ts.drop_last()[i] == SpecValue::Str(t);
                assert(ts[i] == ts.drop_last()[i]);
            }
        }
    }
}

/// Adding a tag twice leaves exactly one occurrence of it.
///
/// This is the tag idempotence law: starting from an entity whose
/// `tags` field is absent or an array holding `t` at most once, adding
/// `t` twice yields a `tags` array holding `t` exactly once.
pub proof fn lemma_tag_idempotence(fs: Seq<(Seq<char>, SpecValue)>, t: Seq<char>)
    requires
        lookup(fs, "tags"@) is None || (lookup(fs, "tags"@) matches Some(SpecValue::Arr(ts))
            && count_str(ts, t) <= 1),
    ensures
        count_str(tags_of(spec_add_tag(spec_add_tag(fs, t), t)), t) == 1,
{
    let one = seq![SpecValue::Str(t)];
    assert(count_str(one, t) == 1) by {
        assert(one.drop_last() =~= Seq::<SpecValue>::empty());
        assert(count_str(Seq::<SpecValue>::empty(), t) == 0);
        assert(one.last() == SpecValue::Str(t));
    }
    match lookup(fs, "tags"@) {
        None => {
            let fs1 = spec_add_tag(fs, t);
            crate::value::lemma_obj_set_lookup(fs, "tags"@, SpecValue::Arr(one), "tags"@);
            assert(lookup(fs1, "tags"@) == Some(SpecValue::Arr(one)));
            assert(tags_of(fs1) == one);
            assert(arr_has_str(one, t)) by {
                assert(one[0] == SpecValue::Str(t));
            }
            assert(spec_add_tag(fs1, t) == fs1);
        },
        Some(v) => {
            if v is Arr {
                let ts = v->Arr_0;
                lemma_count_has(ts, t);
                if arr_has_str(ts, t) {
                    assert(spec_add_tag(fs, t) == fs);
                    assert(count_str(ts, t) == 1);
                } else {
                    let ts2 = ts.push(SpecValue::Str(t));
                    assert(count_str(ts2, t) == 1) by {
                        assert(ts2.drop_last() =~= ts);
                        assert(ts2.last() == SpecValue::Str(t));
                    }
                    let fs1 = spec_add_tag(fs, t);
                    crate::value::lemma_obj_set_lookup(fs, "tags"@, SpecValue::Arr(ts2), "tags"@);
                    assert(lookup(fs1, "tags"@) == Some(SpecValue::Arr(ts2)));
                    assert(arr_has_str(ts2, t)) by {
                        lemma_count_has(ts2, t);
                    }
                    assert(spec_add_tag(fs1, t) == fs1);
                }
            }
        },
    }
}

/// Removing a tag that is not there changes nothing.
///
/// This is the untag no-op law: when `t` does not occur in the entity's
/// tags, removing it asks for no write and leaves the entity unchanged.
pub proof fn lemma_untag_absent(fs: Seq<(Seq<char>, SpecValue)>, t: Seq<char>)
    requires
        !arr_has_str(tags_of(fs), t),
    ensures
        spec_remove_tag(fs, t) == fs,
        !spec_remove_tag_writes(fs, t),
{
}

/// When the first occurrence of `t` sits at position `i`, removing it
/// keeps everything before and after `i`.
pub proof fn lemma_remove_first_at(ts: Seq<SpecValue>, t: Seq<char>, i: int)
    requires
        0 <= i < ts.len(),
        ts[i] == SpecValue::Str(t),
        forall|j: int| 0 <= j < i ==> ts[j] != SpecValue::Str(t),
    ensures
        remove_first_str(ts, t) == ts.take(i) + ts.skip(i + 1),
    decreases i,
{
    if i == 0 {
        assert(ts.drop_first() =~= ts.take(0) + ts.skip(1));
    } else {
        assert(forall|j: int|
            0 <= j < i - 1 ==> #[trigger] ts.drop_first()[j] == ts[j + 1]);
        assert(ts.drop_first()[i - 1] == ts[i]);
        lemma_remove_first_at(ts.drop_first(), t, i - 1);
        assert(ts.drop_first().take(i - 1) =~= ts.subrange(1, i));
        assert(ts.drop_first().skip(i) =~= ts.skip(i + 1));
        assert(seq![ts[0]] + (ts.subrange(1, i) + ts.skip(i + 1)) =~= ts.take(i) + ts.skip(i + 1));
    }
}


/// The position of the first element equal to the string `tag`, if any.
fn find_str_index(items: &Vec<Value>, tag: &str) -> (r: Option<usize>)
    ensures
        match r {
            Some(i) => i < items@.len() && arr_view(items@)[i as int] == SpecValue::Str(tag@)
                && forall|j: int|
                0 <= j < i ==> #[trigger] arr_view(items@)[j] != SpecValue::Str(tag@),
            None => forall|j: int|
                0 <= j < items@.len() ==> #[trigger] arr_view(items@)[j] != SpecValue::Str(tag@),
        },
{
    let ghost ts = arr_view(items@);
    proof {
        lemma_arr_view(items@);
    }
    let mut i: usize = 0;
    while i < items.len()
        invariant
            i <= items.len(),
            ts == arr_view(items@),
            ts.len() == items@.len(),
            forall|j: int| 0 <= j < ts.len() ==> #[trigger] ts[j] == items@[j]@,
            forall|j: int| 0 <= j < i ==> #[trigger] ts[j] != SpecValue::Str(tag@),
        decreases items.len() - i,
    {
        let is_match = match &items[i] {
            Value::Str(s) => crate::strings::str_eq(s.as_str(), tag),
            _ => false,
        };
        if is_match {
            return Some(i);
        }
        i = i + 1;
    }
    None
}

/// The entity with tag `tag` added, and whether a write is needed.
/// Fails with an internal error when the entity is not a mapping.
pub fn entity_with_tag(entity: &Value, tag: &str) -> (r: DocDbResult<(Value, bool)>)
    ensures
        entity@ is Obj ==> r is Ok && r->Ok_0.1 == spec_add_tag_writes(entity@->Obj_0, tag@)
            && r->Ok_0.0@ == SpecValue::Obj(spec_add_tag(entity@->Obj_0, tag@)),
        !(entity@ is Obj) ==> r is Err && r->Err_0 is InternalError,
{
    if !entity.is_object() {
        return Err(
            DocDbError::internal("entity is not a key-value mapping at its top level", "Value"),
        );
    }
    let ghost fs = entity@->Obj_0;
    match entity.get_field("tags") {
        None => {
            let mut copy = entity.deep_copy();
            let mut ts: Vec<Value> = Vec::new();
            ts.push(Value::Str(tag.to_owned()));
            proof {
                lemma_arr_view(ts@);
                assert(arr_view(ts@) =~= seq![SpecValue::Str(tag@)]);
            }
            copy.insert_field("tags", Value::Arr(ts));
            Ok((copy, true))
        },
        Some(tags_value) => {
            match tags_value {
                Value::Arr(items) => {
                    let ghost ts = arr_view(items@);
                    proof {
                        lemma_arr_view(items@);
                    }
                    let found_at = find_str_index(items, tag);
                    if found_at.is_some() {
                        proof {
                            let i = found_at->Some_0 as int;
                            assert(ts[i] == SpecValue::Str(tag@));
                            assert(arr_has_str(ts, tag@));
                        }
                        Ok((entity.deep_copy(), false))
                    } else {
                        proof {
                            assert(!arr_has_str(ts, tag@));
                        }
                        let mut new_items: Vec<Value> = Vec::new();
                        let mut j: usize = 0;
                        while j < items.len()
                            invariant
                                j <= items.len(),
                                new_items@.len() == j as int,
                                forall|k: int|
                                    0 <= k < j ==> #[trigger] new_items@[k]@ == items@[k]@,
                            decreases items.len() - j,
                        {
                            new_items.push(items[j].deep_copy());
                            j = j + 1;
                        }
                        new_items.push(Value::Str(tag.to_owned()));
                        proof {
                            lemma_arr_view(new_items@);
                            assert(arr_view(new_items@) =~= ts.push(SpecValue::Str(tag@)));
                        }
                        let mut copy = entity.deep_copy();
                        copy.insert_field("tags", Value::Arr(new_items));
                        Ok((copy, true))
                    }
                },
                _ => Ok((entity.deep_copy(), false)),
            }
        },
    }
}

/// The entity with the first occurrence of `tag` removed, and whether a
/// write is needed.  Fails with an internal error when the entity is
/// not a mapping.
pub fn entity_without_tag(entity: &Value, tag: &str) -> (r: DocDbResult<(Value, bool)>)
    ensures
        entity@ is Obj ==> r is Ok && r->Ok_0.1 == spec_remove_tag_writes(entity@->Obj_0, tag@)
            && r->Ok_0.0@ == SpecValue::Obj(spec_remove_tag(entity@->Obj_0, tag@)),
        !(entity@ is Obj) ==> r is Err && r->Err_0 is InternalError,
{
    if !entity.is_object() {
        return Err(
            DocDbError::internal("entity is not a key-value mapping at its top level", "Value"),
        );
    }
    let ghost fs = entity@->Obj_0;
    match entity.get_field("tags") {
        None => Ok((entity.deep_copy(), false)),
        Some(tags_value) => {
            match tags_value {
                Value::Arr(items) => {
                    let ghost ts = arr_view(items@);
                    proof {
                        lemma_arr_view(items@);
                    }
                    let i = match find_str_index(items, tag) {
                        None => {
                            proof {
                                assert(!arr_has_str(ts, tag@));
                            }
                            return Ok((entity.deep_copy(), false));
                        },
                        Some(i) => i,
                    };
                    proof {
                        assert(ts[i as int] == SpecValue::Str(tag@));
                        assert(arr_has_str(ts, tag@));
                        lemma_remove_first_at(ts, tag@, i as int);
                    }
                    let mut new_items: Vec<Value> = Vec::new();
                    let mut j: usize = 0;
                    while j < items.len()
                        invariant
                            i < items.len(),
                            j <= items.len(),
                            ts == arr_view(items@),
                            ts.len() == items@.len(),
                            forall|k: int| 0 <= k < ts.len() ==> #[trigger] ts[k] == items@[k]@,
                            j <= i ==> new_items@.len() == j as int,
                            j > i ==> new_items@.len() == j - 1,
                            forall|k: int|
                                0 <= k < j && k < i ==> #[trigger] new_items@[k]@ == items@[k]@,
                            forall|k: int|
                                i < k < j ==> #[trigger] new_items@[k - 1]@ == items@[k]@,
                        decreases items.len() - j,
                    {
                        if j != i {
                            new_items.push(items[j].deep_copy());
                        }
                        j = j + 1;
                    }
                    proof {
                        lemma_arr_view(new_items@);
                        assert(arr_view(new_items@) =~= ts.take(i as int) + ts.skip(i as int + 1));
                    }
                    let mut copy = entity.deep_copy();
                    copy.insert_field("tags", Value::Arr(new_items));
                    Ok((copy, true))
                },
                _ => Ok((entity.deep_copy(), false)),
            }
        },
    }
}

} // verus!
