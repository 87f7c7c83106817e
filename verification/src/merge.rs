//! The merge engine: reconciling a new partial payload against a
//! previously stored entity.  A key of the stored entity that the new
//! payload leaves absent or explicitly null keeps its stored value; every
//! non-null key of the new payload wins.  The merge is shallow: nested
//! values replace their counterparts wholesale.
use vstd::prelude::*;

use crate::errors::DocDbError;
use crate::errors::DocDbResult;
use crate::strings::lex_lt;
use crate::strings::lemma_lex_lt_irrefl;
use crate::value::lemma_lookup_skip;
use crate::value::lemma_obj_set_lookup;
use crate::value::lemma_obj_set_prefix;
use crate::value::lemma_obj_set_sorted;
use crate::value::lemma_obj_set_wf;
use crate::value::lemma_sorted_pairwise;
use crate::value::lemma_wf_fields;
use crate::value::lookup;
use crate::value::obj_keys_sorted;
use crate::value::obj_set;
use crate::value::wf;
use crate::value::wf_fields;
use crate::value::SpecValue;
use crate::value::Value;

verus! {

/// Whether the payload gives no usable value for key `k`.
pub open spec fn null_or_absent(inc: Seq<(Seq<char>, SpecValue)>, k: Seq<char>) -> bool {
    lookup(inc, k) is None || lookup(inc, k) == Some(SpecValue::Null)
}

/// One merge step: copy the stored field `p` into the payload when the
/// payload gives nothing usable for its key.
pub open spec fn merge_step(
    inc: Seq<(Seq<char>, SpecValue)>,
    p: (Seq<char>, SpecValue),
) -> Seq<(Seq<char>, SpecValue)> {
    if null_or_absent(inc, p.0) {
        obj_set(inc, p.0, p.1)
    } else {
        inc
    }
}

/// The merged mapping: every stored field is offered to the payload in
/// order, and lands only where the payload is null or silent.
pub open spec fn spec_merge(
    ex: Seq<(Seq<char>, SpecValue)>,
    inc: Seq<(Seq<char>, SpecValue)>,
) -> Seq<(Seq<char>, SpecValue)>
    decreases ex.len(),
{
    if ex.len() == 0 {
        inc
    } else {
        spec_merge(ex.drop_first(), merge_step(inc, ex[0]))
    }
}

/// What the merge binds to each key: a non-null payload value wins, a
/// stored value fills a null or absent one, and a null payload value
/// with no stored counterpart stays null.
pub open spec fn merged_lookup(
    ex: Seq<(Seq<char>, SpecValue)>,
    inc: Seq<(Seq<char>, SpecValue)>,
    k: Seq<char>,
) -> Option<SpecValue> {
    if !null_or_absent(inc, k) {
        lookup(inc, k)
    } else if lookup(ex, k) is Some {
        lookup(ex, k)
    } else {
        lookup(inc, k)
    }
}

pub proof fn lemma_merge_lookup(
    ex: Seq<(Seq<char>, SpecValue)>,
    inc: Seq<(Seq<char>, SpecValue)>,
    k: Seq<char>,
)
    requires
        obj_keys_sorted(ex),
    ensures
        lookup(spec_merge(ex, inc), k) == merged_lookup(ex, inc, k),
    decreases ex.len(),
{
    if ex.len() > 0 {
        let p = ex[0];
        let inc2 = merge_step(inc, p);
        assert(obj_keys_sorted(ex.drop_first())) by {
            assert(forall|i: int|
                0 <= i < ex.drop_first().len() ==> (#[trigger] ex.drop_first()[i]) == ex[i + 1]);
        }
        lemma_merge_lookup(ex.drop_first(), inc2, k);
        lemma_obj_set_lookup(inc, p.0, p.1, k);
        if k == p.0 {
            assert(lookup(ex.drop_first(), k) is None) by {
                assert forall|j: int| 0 <= j < ex.drop_first().len() implies (
                #[trigger] ex.drop_first()[j]).0 != k by {
                    assert(ex.drop_first()[j] == ex[j + 1]);
                    lemma_sorted_pairwise(ex, 0, j + 1);
                    if ex[j + 1].0 == k {
                        lemma_lex_lt_irrefl(k);
                    }
                }
                lemma_lookup_skip(ex.drop_first(), k, ex.drop_first().len() as int);
                assert(ex.drop_first().skip(ex.drop_first().len() as int) =~= Seq::<
                    (Seq<char>, SpecValue),
                >::empty());
            }
        }
    }
}

/// The merge keeps keys sorted and every field well-formed.
pub proof fn lemma_merge_wf(
    ex: Seq<(Seq<char>, SpecValue)>,
    inc: Seq<(Seq<char>, SpecValue)>,
)
    requires
        obj_keys_sorted(ex),
        wf_fields(ex),
        obj_keys_sorted(inc),
        wf_fields(inc),
    ensures
        obj_keys_sorted(spec_merge(ex, inc)),
        wf_fields(spec_merge(ex, inc)),
    decreases ex.len(),
{
    if ex.len() > 0 {
        let p = ex[0];
        let inc2 = merge_step(inc, p);
        assert(obj_keys_sorted(ex.drop_first()) && wf_fields(ex.drop_first())) by {
            assert(forall|i: int|
                0 <= i < ex.drop_first().len() ==> (#[trigger] ex.drop_first()[i]) == ex[i + 1]);
            lemma_wf_fields(ex);
            lemma_wf_fields(ex.drop_first());
        }
        if null_or_absent(inc, p.0) {
            lemma_obj_set_sorted(inc, p.0, p.1);
            lemma_obj_set_wf(inc, p.0, p.1);
            assert(wf(p.1)) by {
                lemma_wf_fields(ex);
            }
        }
        lemma_merge_wf(ex.drop_first(), inc2);
    }
}

/// Merging a mapping with an empty payload gives back the mapping.
///
/// This is the identity law of the merge: `merge(E, {})` is `E` for any
/// well-formed mapping `E`.
pub proof fn lemma_merge_identity(ex: Seq<(Seq<char>, SpecValue)>)
    requires
        obj_keys_sorted(ex),
    ensures
        spec_merge(ex, Seq::<(Seq<char>, SpecValue)>::empty()) == ex,
{
    lemma_merge_prefix_identity(ex, 0);
    assert(ex.skip(0) =~= ex);
    assert(ex.take(0) =~= Seq::<(Seq<char>, SpecValue)>::empty());
}

/// Folding the fields past position `i` onto the first `i` fields
/// rebuilds the whole mapping.
proof fn lemma_merge_prefix_identity(ex: Seq<(Seq<char>, SpecValue)>, i: int)
    requires
        obj_keys_sorted(ex),
        0 <= i <= ex.len(),
    ensures
        spec_merge(ex.skip(i), ex.take(i)) == ex,
    decreases ex.len() - i,
{
    if i == ex.len() {
        assert(ex.skip(i) =~= Seq::<(Seq<char>, SpecValue)>::empty());
        assert(ex.take(i) =~= ex);
    } else {
        let acc = ex.take(i);
        let p = ex.skip(i)[0];
        assert(p == ex[i]);
        assert(forall|j: int| 0 <= j < i ==> (#[trigger] acc[j]) == ex[j]);
        assert forall|j: int| 0 <= j < acc.len() implies (#[trigger] acc[j]).0 != p.0 && lex_lt(
            acc[j].0,
            p.0,
        ) by {
            lemma_sorted_pairwise(ex, j, i);
            if acc[j].0 == p.0 {
                lemma_lex_lt_irrefl(p.0);
            }
        }
        assert(null_or_absent(acc, p.0)) by {
            lemma_lookup_skip(acc, p.0, acc.len() as int);
            assert(acc.skip(acc.len() as int) =~= Seq::<(Seq<char>, SpecValue)>::empty());
        }
        lemma_obj_set_prefix(acc, p.0, p.1, acc.len() as int);
        assert(acc.skip(acc.len() as int) =~= Seq::<(Seq<char>, SpecValue)>::empty());
        assert(merge_step(acc, p) =~= ex.take(i + 1)) by {
            assert(acc.take(acc.len() as int) =~= acc);
            assert(obj_set(acc, p.0, p.1) == acc + obj_set(
                Seq::<(Seq<char>, SpecValue)>::empty(),
                p.0,
                p.1,
            ));
            assert(acc + seq![(p.0, p.1)] =~= ex.take(i + 1));
        }
        lemma_merge_prefix_identity(ex, i + 1);
        assert(ex.skip(i).drop_first() =~= ex.skip(i + 1));
    }
}

/// A key the payload fills with a non-null value keeps that value.
///
/// This is the override law of the merge: wherever `incoming` binds `k`
/// to a non-null value, the merged mapping binds `k` to `incoming`'s
/// value, whatever `existing` holds.
pub proof fn lemma_merge_override(
    ex: Seq<(Seq<char>, SpecValue)>,
    inc: Seq<(Seq<char>, SpecValue)>,
    k: Seq<char>,
)
    requires
        obj_keys_sorted(ex),
        lookup(ex, k) is Some,
        lookup(inc, k) is Some,
        lookup(inc, k) != Some(SpecValue::Null),
    ensures
        lookup(spec_merge(ex, inc), k) == lookup(inc, k),
{
    lemma_merge_lookup(ex, inc, k);
}

/// A key only the stored entity holds survives with its stored value.
///
/// This is the preservation law of the merge: a key absent from the
/// payload keeps the value the stored entity gave it.
pub proof fn lemma_merge_preservation(
    ex: Seq<(Seq<char>, SpecValue)>,
    inc: Seq<(Seq<char>, SpecValue)>,
    k: Seq<char>,
)
    requires
        obj_keys_sorted(ex),
        lookup(ex, k) is Some,
        lookup(inc, k) is None,
    ensures
        lookup(spec_merge(ex, inc), k) == lookup(ex, k),
{
    lemma_merge_lookup(ex, inc, k);
}

/// Reconciles `json_new_entity` against the stored `json_parent_entity`:
/// every stored top-level key that the new payload leaves absent or null
/// is copied over from the stored version; the rest of the payload is
/// untouched.  Both must be mappings at the top level; anything else is
/// an internal error that leaves the payload unchanged.
pub fn merge_entities(json_parent_entity: &Value, json_new_entity: &mut Value) -> (r: DocDbResult<
    (),
>)
    ensures
        json_parent_entity@ is Obj && old(json_new_entity)@ is Obj ==> r is Ok
            && final(json_new_entity)@ == SpecValue::Obj(
            spec_merge(json_parent_entity@->Obj_0, old(json_new_entity)@->Obj_0),
        ),
        !(json_parent_entity@ is Obj && old(json_new_entity)@ is Obj) ==> r is Err && r->Err_0
            is InternalError && *final(json_new_entity) == *old(json_new_entity),
{
    let parent_fields: &Vec<(String, Value)> = match json_parent_entity {
        Value::Obj(fs) => fs,
        _ => {
            return Err(
                DocDbError::internal("merge target is not a key-value mapping", "Value"),
            );
        },
    };
    if !json_new_entity.is_object() {
        return Err(DocDbError::internal("merge payload is not a key-value mapping", "Value"));
    }
    let ghost ex = json_parent_entity@->Obj_0;
    let ghost inc0 = old(json_new_entity)@->Obj_0;
    proof {
        crate::value::lemma_obj_view(parent_fields@);
        assert(ex.skip(0) =~= ex);
    }
    let mut i: usize = 0;
    while i < parent_fields.len()
        invariant
            i <= parent_fields.len(),
            json_parent_entity@ == SpecValue::Obj(ex),
            ex == crate::value::obj_view(parent_fields@),
            ex.len() == parent_fields@.len(),
            forall|j: int| 0 <= j < ex.len() ==> #[trigger] ex[j] == (
                parent_fields@[j].0@,
                parent_fields@[j].1@,
            ),
            json_new_entity@ is Obj,
            spec_merge(ex, inc0) == spec_merge(ex.skip(i as int), json_new_entity@->Obj_0),
        decreases parent_fields.len() - i,
    {
        proof {
            assert(ex.skip(i as int)[0] == ex[i as int]);
            assert(ex.skip(i as int).drop_first() =~= ex.skip(i as int + 1));
        }
        let key = &parent_fields[i].0;
        let ghost acc = json_new_entity@->Obj_0;
        let needs_fill = match json_new_entity.get_field(key.as_str()) {
            None => true,
            Some(existing) => match existing {
                Value::Null => true,
                _ => false,
            },
        };
        if needs_fill {
            let val = parent_fields[i].1.deep_copy();
            json_new_entity.insert_field(key.as_str(), val);
            proof {
                assert(json_new_entity@->Obj_0 == obj_set(acc, ex[i as int].0, ex[i as int].1));
                assert(merge_step(acc, ex[i as int]) == json_new_entity@->Obj_0);
            }
        } else {
            proof {
                assert(!null_or_absent(acc, ex[i as int].0));
                assert(merge_step(acc, ex[i as int]) == acc);
            }
        }
        i = i + 1;
    }
    proof {
        assert(ex.skip(parent_fields@.len() as int) =~= Seq::<(Seq<char>, SpecValue)>::empty());
    }
    Ok(())
}

} // verus!
