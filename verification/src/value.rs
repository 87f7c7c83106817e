//! The entity data model: a schema-less structured value (null, boolean,
//! 64-bit integer, string, array, or string-keyed mapping), together with
//! its mathematical model and the operations the store builds on.
//!
//! A well-formed mapping keeps its keys strictly sorted, so every entity
//! has exactly one stored form.
use vstd::prelude::*;

use crate::strings::lemma_lex_lt_connected;
use crate::strings::lemma_lex_lt_irrefl;
use crate::strings::lemma_lex_lt_trans;
use crate::strings::lex_lt;
use crate::strings::str_eq;
use crate::strings::str_lt;

verus! {

/// A structured document value: the unit that the store persists.
pub enum Value {
    Null,
    Bool(bool),
    Int(i64),
    Str(String),
    Arr(Vec<Value>),
    Obj(Vec<(String, Value)>),
}

/// Mathematical model of a `Value`.
#[verifier::ext_equal]
pub enum SpecValue {
    Null,
    Bool(bool),
    Int(int),
    Str(Seq<char>),
    Arr(Seq<SpecValue>),
    Obj(Seq<(Seq<char>, SpecValue)>),
}

pub open spec fn value_view(v: &Value) -> SpecValue
    decreases v,
{
    match v {
        Value::Null => SpecValue::Null,
        Value::Bool(b) => SpecValue::Bool(*b),
        Value::Int(n) => SpecValue::Int(*n as int),
        Value::Str(s) => SpecValue::Str(s@),
        Value::Arr(vs) => SpecValue::Arr(arr_view(vs@)),
        Value::Obj(fs) => SpecValue::Obj(obj_view(fs@)),
    }
}

pub open spec fn arr_view(vs: Seq<Value>) -> Seq<SpecValue>
    decreases vs,
{
    if vs.len() == 0 {
        Seq::empty()
    } else {
        seq![value_view(&vs[0])] + arr_view(vs.drop_first())
    }
}

pub open spec fn obj_view(fs: Seq<(String, Value)>) -> Seq<(Seq<char>, SpecValue)>
    decreases fs,
{
    if fs.len() == 0 {
        Seq::empty()
    } else {
        seq![(fs[0].0@, value_view(&fs[0].1))] + obj_view(fs.drop_first())
    }
}

impl View for Value {
    type V = SpecValue;

    open spec fn view(&self) -> SpecValue {
        value_view(self)
    }
}

pub proof fn lemma_arr_view(vs: Seq<Value>)
    ensures
        arr_view(vs).len() == vs.len(),
        forall|i: int| 0 <= i < vs.len() ==> #[trigger] arr_view(vs)[i] == vs[i]@,
    decreases vs.len(),
{
    if vs.len() > 0 {
        lemma_arr_view(vs.drop_first());
        assert forall|i: int| 0 <= i < vs.len() implies #[trigger] arr_view(vs)[i] == vs[i]@ by {
            if i > 0 {
                assert(arr_view(vs)[i] == arr_view(vs.drop_first())[i - 1]);
                assert(vs.drop_first()[i - 1] == vs[i]);
            }
        }
    }
}

pub proof fn lemma_obj_view(fs: Seq<(String, Value)>)
    ensures
        obj_view(fs).len() == fs.len(),
        forall|i: int|
            0 <= i < fs.len() ==> #[trigger] obj_view(fs)[i] == (fs[i].0@, fs[i].1@),
    decreases fs.len(),
{
    if fs.len() > 0 {
        lemma_obj_view(fs.drop_first());
        assert forall|i: int|
            0 <= i < fs.len() implies #[trigger] obj_view(fs)[i] == (fs[i].0@, fs[i].1@) by {
            if i > 0 {
                assert(obj_view(fs)[i] == obj_view(fs.drop_first())[i - 1]);
                assert(fs.drop_first()[i - 1] == fs[i]);
            }
        }
    }
}

/// Adjacent keys of a mapping are in strictly increasing order.
pub open spec fn obj_keys_sorted(fs: Seq<(Seq<char>, SpecValue)>) -> bool {
    forall|i: int| 0 <= i < fs.len() - 1 ==> lex_lt(#[trigger] fs[i].0, fs[i + 1].0)
}

/// Sorted adjacency extends to every pair of positions.
pub proof fn lemma_sorted_pairwise(fs: Seq<(Seq<char>, SpecValue)>, i: int, j: int)
    requires
        obj_keys_sorted(fs),
        0 <= i < j < fs.len(),
    ensures
        lex_lt(fs[i].0, fs[j].0),
    decreases j - i,
{
    if j == i + 1 {
    } else {
        lemma_sorted_pairwise(fs, i, j - 1);
        lemma_lex_lt_trans(fs[i].0, fs[j - 1].0, fs[j].0);
    }
}

/// A well-formed value: every mapping in it has strictly sorted keys,
/// and every number fits the store's machine integer.
pub open spec fn wf(sv: SpecValue) -> bool
    decreases sv,
{
    match sv {
        SpecValue::Int(n) => i64::MIN <= n <= i64::MAX,
        SpecValue::Arr(es) => wf_arr(es),
        SpecValue::Obj(fs) => obj_keys_sorted(fs) && wf_fields(fs),
        _ => true,
    }
}

pub open spec fn wf_arr(es: Seq<SpecValue>) -> bool
    decreases es,
{
    es.len() == 0 || (wf(es[0]) && wf_arr(es.drop_first()))
}

pub open spec fn wf_fields(fs: Seq<(Seq<char>, SpecValue)>) -> bool
    decreases fs,
{
    fs.len() == 0 || (wf(fs[0].1) && wf_fields(fs.drop_first()))
}

pub proof fn lemma_wf_arr(es: Seq<SpecValue>)
    ensures
        wf_arr(es) <==> (forall|i: int| 0 <= i < es.len() ==> wf(#[trigger] es[i])),
    decreases es.len(),
{
    if es.len() > 0 {
        lemma_wf_arr(es.drop_first());
        assert forall|i: int| 0 <= i < es.len() && wf_arr(es) implies wf(#[trigger] es[i]) by {
            if i > 0 {
                assert(es.drop_first()[i - 1] == es[i]);
            }
        }
        if forall|i: int| 0 <= i < es.len() ==> wf(#[trigger] es[i]) {
            assert forall|i: int| 0 <= i < es.drop_first().len() implies wf(
                #[trigger] es.drop_first()[i],
            ) by {
                assert(es.drop_first()[i] == es[i + 1]);
            }
        }
    }
}

pub proof fn lemma_wf_fields(fs: Seq<(Seq<char>, SpecValue)>)
    ensures
        wf_fields(fs) <==> (forall|i: int| 0 <= i < fs.len() ==> wf((#[trigger] fs[i]).1)),
    decreases fs.len(),
{
    if fs.len() > 0 {
        lemma_wf_fields(fs.drop_first());
        assert forall|i: int| 0 <= i < fs.len() && wf_fields(fs) implies wf((#[trigger] fs[i]).1) by {
            if i > 0 {
                assert(fs.drop_first()[i - 1] == fs[i]);
            }
        }
        if forall|i: int| 0 <= i < fs.len() ==> wf((#[trigger] fs[i]).1) {
            assert forall|i: int| 0 <= i < fs.drop_first().len() implies wf(
                (#[trigger] fs.drop_first()[i]).1,
            ) by {
                assert(fs.drop_first()[i] == fs[i + 1]);
            }
        }
    }
}

/// The value stored under key `k`, if any.
pub open spec fn lookup(fs: Seq<(Seq<char>, SpecValue)>, k: Seq<char>) -> Option<SpecValue>
    decreases fs.len(),
{
    if fs.len() == 0 {
        None
    } else if fs[0].0 == k {
        Some(fs[0].1)
    } else {
        lookup(fs.drop_first(), k)
    }
}

/// A scan that has passed the first `i` fields without a key match still
/// finds the same answer in the rest.
pub proof fn lemma_lookup_skip(fs: Seq<(Seq<char>, SpecValue)>, k: Seq<char>, i: int)
    requires
        0 <= i <= fs.len(),
        forall|j: int| 0 <= j < i ==> (#[trigger] fs[j]).0 != k,
    ensures
        lookup(fs, k) == lookup(fs.skip(i), k),
    decreases i,
{
    if i == 0 {
        assert(fs.skip(0) =~= fs);
    } else {
        assert(forall|j: int|
            0 <= j < i - 1 ==> (#[trigger] fs.drop_first()[j]).0 == fs[j + 1].0);
        lemma_lookup_skip(fs.drop_first(), k, i - 1);
        assert(fs.drop_first().skip(i - 1) =~= fs.skip(i));
    }
}

/// A found value sits at some position; a miss means no key matches.
pub proof fn lemma_lookup_index(fs: Seq<(Seq<char>, SpecValue)>, k: Seq<char>)
    ensures
        lookup(fs, k) is Some ==> exists|i: int|
            0 <= i < fs.len() && (#[trigger] fs[i]).0 == k && fs[i].1 == lookup(fs, k)->Some_0,
        lookup(fs, k) is None ==> forall|i: int| 0 <= i < fs.len() ==> (#[trigger] fs[i]).0 != k,
    decreases fs.len(),
{
    if fs.len() > 0 && fs[0].0 != k {
        lemma_lookup_index(fs.drop_first(), k);
        if lookup(fs, k) is Some {
            let i = choose|i: int|
                0 <= i < fs.drop_first().len() && (#[trigger] fs.drop_first()[i]).0 == k
                    && fs.drop_first()[i].1 == lookup(fs.drop_first(), k)->Some_0;
            assert(fs[i + 1] == fs.drop_first()[i]);
        } else {
            assert forall|i: int| 0 <= i < fs.len() implies (#[trigger] fs[i]).0 != k by {
                if i > 0 {
                    assert(fs.drop_first()[i - 1] == fs[i]);
                }
            }
        }
    }
}

/// The mapping with key `k` bound to `v` and every other key unchanged,
/// keys kept in sorted order.
pub open spec fn obj_set(
    fs: Seq<(Seq<char>, SpecValue)>,
    k: Seq<char>,
    v: SpecValue,
) -> Seq<(Seq<char>, SpecValue)>
    decreases fs.len(),
{
    if fs.len() == 0 {
        seq![(k, v)]
    } else if fs[0].0 == k {
        seq![(k, v)] + fs.drop_first()
    } else if lex_lt(k, fs[0].0) {
        seq![(k, v)] + fs
    } else {
        seq![fs[0]] + obj_set(fs.drop_first(), k, v)
    }
}

pub proof fn lemma_obj_set_lookup(
    fs: Seq<(Seq<char>, SpecValue)>,
    k: Seq<char>,
    v: SpecValue,
    k2: Seq<char>,
)
    ensures
        lookup(obj_set(fs, k, v), k2) == if k2 == k {
            Some(v)
        } else {
            lookup(fs, k2)
        },
    decreases fs.len(),
{
    let r = obj_set(fs, k, v);
    if fs.len() == 0 {
        assert(r.drop_first() =~= Seq::<(Seq<char>, SpecValue)>::empty());
        assert(lookup(r, k2) == if k2 == k { Some(v) } else { lookup(fs, k2) });
    } else if fs[0].0 == k {
        assert(r.drop_first() =~= fs.drop_first());
        assert(lookup(r, k2) == if k2 == k { Some(v) } else { lookup(fs, k2) });
    } else if lex_lt(k, fs[0].0) {
        assert(r.drop_first() =~= fs);
        if k2 == k {
            lemma_lex_lt_irrefl(k);
        }
        assert(lookup(r, k2) == if k2 == k { Some(v) } else { lookup(fs, k2) });
    } else {
        lemma_obj_set_lookup(fs.drop_first(), k, v, k2);
        assert(r.drop_first() =~= obj_set(fs.drop_first(), k, v));
        assert(r[0] == fs[0]);
        assert(lookup(r, k2) == if k2 == k { Some(v) } else { lookup(fs, k2) });
    }
}

pub proof fn lemma_obj_set_len(fs: Seq<(Seq<char>, SpecValue)>, k: Seq<char>, v: SpecValue)
    ensures
        fs.len() <= obj_set(fs, k, v).len() <= fs.len() + 1,
        obj_set(fs, k, v).len() >= 1,
        obj_set(fs, k, v)[0] == if fs.len() == 0 || fs[0].0 == k || lex_lt(k, fs[0].0) {
            (k, v)
        } else {
            fs[0]
        },
    decreases fs.len(),
{
    if fs.len() > 0 && fs[0].0 != k && !lex_lt(k, fs[0].0) {
        lemma_obj_set_len(fs.drop_first(), k, v);
    }
}

pub proof fn lemma_obj_set_sorted(fs: Seq<(Seq<char>, SpecValue)>, k: Seq<char>, v: SpecValue)
    requires
        obj_keys_sorted(fs),
    ensures
        obj_keys_sorted(obj_set(fs, k, v)),
    decreases fs.len(),
{
    let r = obj_set(fs, k, v);
    if fs.len() == 0 {
    } else if fs[0].0 == k {
        assert forall|i: int| 0 <= i < r.len() - 1 implies lex_lt(
            #[trigger] r[i].0,
            r[i + 1].0,
        ) by {
            if i == 0 {
                assert(r[1] == fs[1]);
                assert(lex_lt(fs[0].0, fs[1].0));
            } else {
                assert(r[i] == fs[i] && r[i + 1] == fs[i + 1]);
            }
        }
    } else if lex_lt(k, fs[0].0) {
        assert forall|i: int| 0 <= i < r.len() - 1 implies lex_lt(
            #[trigger] r[i].0,
            r[i + 1].0,
        ) by {
            if i > 0 {
                assert(r[i] == fs[i - 1] && r[i + 1] == fs[i]);
            }
        }
    } else {
        if !lex_lt(fs[0].0, k) {
            lemma_lex_lt_connected(k, fs[0].0);
        }
        assert(lex_lt(fs[0].0, k));
        assert forall|i: int| 0 <= i < fs.drop_first().len() - 1 implies lex_lt(
            (#[trigger] fs.drop_first()[i]).0,
            fs.drop_first()[i + 1].0,
        ) by {
            assert(fs.drop_first()[i] == fs[i + 1] && fs.drop_first()[i + 1] == fs[i + 2]);
        }
        lemma_obj_set_sorted(fs.drop_first(), k, v);
        lemma_obj_set_len(fs.drop_first(), k, v);
        let inner = obj_set(fs.drop_first(), k, v);
        assert forall|i: int| 0 <= i < r.len() - 1 implies lex_lt(
            #[trigger] r[i].0,
            r[i + 1].0,
        ) by {
            if i == 0 {
                assert(r[1] == inner[0]);
                if fs.drop_first().len() == 0 || fs.drop_first()[0].0 == k || lex_lt(
                    k,
                    fs.drop_first()[0].0,
                ) {
                    assert(inner[0] == (k, v));
                    assert(lex_lt(fs[0].0, k));
                } else {
                    assert(inner[0] == fs.drop_first()[0]);
                    assert(fs.drop_first()[0] == fs[1]);
                    assert(lex_lt(fs[0].0, fs[1].0));
                }
            } else {
                assert(r[i] == inner[i - 1] && r[i + 1] == inner[i]);
            }
        }
    }
}

pub proof fn lemma_obj_set_wf(fs: Seq<(Seq<char>, SpecValue)>, k: Seq<char>, v: SpecValue)
    requires
        wf_fields(fs),
        wf(v),
    ensures
        wf_fields(obj_set(fs, k, v)),
    decreases fs.len(),
{
    let r = obj_set(fs, k, v);
    lemma_wf_fields(fs);
    lemma_wf_fields(r);
    lemma_obj_set_len(fs, k, v);
    if fs.len() == 0 {
    } else if fs[0].0 == k {
        assert forall|i: int| 0 <= i < r.len() implies wf((#[trigger] r[i]).1) by {
            if i > 0 {
                assert(r[i] == fs[i]);
            }
        }
    } else if lex_lt(k, fs[0].0) {
        assert forall|i: int| 0 <= i < r.len() implies wf((#[trigger] r[i]).1) by {
            if i > 0 {
                assert(r[i] == fs[i - 1]);
            }
        }
    } else {
        lemma_wf_fields(fs.drop_first());
        assert forall|i: int| 0 <= i < fs.drop_first().len() implies wf(
            (#[trigger] fs.drop_first()[i]).1,
        ) by {
            assert(fs.drop_first()[i] == fs[i + 1]);
        }
        lemma_obj_set_wf(fs.drop_first(), k, v);
        let inner = obj_set(fs.drop_first(), k, v);
        lemma_wf_fields(inner);
        assert forall|i: int| 0 <= i < r.len() implies wf((#[trigger] r[i]).1) by {
            if i > 0 {
                assert(r[i] == inner[i - 1]);
            }
        }
    }
}

impl Value {
    /// Whether this value is a key-value mapping at its top level.
    pub fn is_object(&self) -> (r: bool)
        ensures
            r == (self@ is Obj),
    {
        match self {
            Value::Obj(_) => true,
            _ => false,
        }
    }

    /// The value bound to `key`, when this value is a mapping holding it.
    #[verifier::loop_isolation(false)]
    pub fn get_field<'a>(&'a self, key: &str) -> (r: Option<&'a Value>)
        ensures
            match self@ {
                SpecValue::Obj(fs) => match r {
                    Some(v) => lookup(fs, key@) == Some(v@),
                    None => lookup(fs, key@) is None,
                },
                _ => r is None,
            },
    {
        match self {
            Value::Obj(fields) => {
                proof {
                    lemma_obj_view(fields@);
                }
                let ghost fs = obj_view(fields@);
                let mut i: usize = 0;
                while i < fields.len()
                    invariant
                        i <= fields.len(),
                        fs == obj_view(fields@),
                        fs.len() == fields@.len(),
                        forall|j: int| 0 <= j < fs.len() ==> #[trigger] fs[j] == (
                            fields@[j].0@,
                            fields@[j].1@,
                        ),
                        forall|j: int| 0 <= j < i ==> (#[trigger] fs[j]).0 != key@,
                    decreases fields.len() - i,
                {
                    if str_eq(fields[i].0.as_str(), key) {
                        proof {
                            lemma_lookup_skip(fs, key@, i as int);
                            assert(fs.skip(i as int)[0] == fs[i as int]);
                        }
                        return Some(&fields[i].1);
                    }
                    i = i + 1;
                }
                proof {
                    lemma_lookup_skip(fs, key@, i as int);
                    assert(fs.skip(fs.len() as int) =~= Seq::<(Seq<char>, SpecValue)>::empty());
                }
                None
            },
            _ => None,
        }
    }

    /// A structurally equal copy of the value.
    #[verifier::loop_isolation(false)]
    pub fn deep_copy(&self) -> (r: Value)
        ensures
            r@ == self@,
        decreases self,
    {
        match self {
            Value::Null => Value::Null,
            Value::Bool(b) => Value::Bool(*b),
            Value::Int(n) => Value::Int(*n),
            Value::Str(s) => Value::Str(s.clone()),
            Value::Arr(vs) => {
                let mut out: Vec<Value> = Vec::new();
                let mut i: usize = 0;
                while i < vs.len()
                    invariant
                        i <= vs.len(),
                        out@.len() == i as int,
                        forall|j: int| 0 <= j < i as int ==> #[trigger] out@[j]@ == vs@[j]@,
                    decreases vs.len() - i,
                {
                    out.push(vs[i].deep_copy());
                    i = i + 1;
                }
                proof {
                    lemma_arr_view(out@);
                    lemma_arr_view(vs@);
                    assert(arr_view(out@) =~= arr_view(vs@));
                }
                Value::Arr(out)
            },
            Value::Obj(fs) => {
                let mut out: Vec<(String, Value)> = Vec::new();
                let mut i: usize = 0;
                while i < fs.len()
                    invariant
                        i <= fs.len(),
                        out@.len() == i as int,
                        forall|j: int|
                            0 <= j < i as int ==> (#[trigger] out@[j]).0@ == fs@[j].0@
                                && out@[j].1@ == fs@[j].1@,
                    decreases fs.len() - i,
                {
                    let k = fs[i].0.clone();
                    let v = fs[i].1.deep_copy();
                    out.push((k, v));
                    i = i + 1;
                }
                proof {
                    lemma_obj_view(out@);
                    lemma_obj_view(fs@);
                    assert(obj_view(out@) =~= obj_view(fs@));
                }
                Value::Obj(out)
            },
        }
    }


    /// Whether two values are structurally equal: same shape, same
    /// scalars, same keys bound to equal values in the same order.
    #[verifier::loop_isolation(false)]
    pub fn deep_eq(&self, other: &Value) -> (r: bool)
        ensures
            r == (self@ == other@),
        decreases self,
    {
        match (self, other) {
            (Value::Null, Value::Null) => true,
            (Value::Bool(a), Value::Bool(b)) => a == b,
            (Value::Int(a), Value::Int(b)) => a == b,
            (Value::Str(a), Value::Str(b)) => str_eq(a.as_str(), b.as_str()),
            (Value::Arr(xs), Value::Arr(ys)) => {
                proof {
                    lemma_arr_view(xs@);
                    lemma_arr_view(ys@);
                }
                if xs.len() != ys.len() {
                    proof {
                        assert(arr_view(xs@).len() != arr_view(ys@).len());
                    }
                    return false;
                }
                let mut i: usize = 0;
                while i < xs.len()
                    invariant
                        i <= xs.len(),
                        forall|j: int| 0 <= j < i ==> #[trigger] xs@[j]@ == ys@[j]@,
                    decreases xs.len() - i,
                {
                    if !xs[i].deep_eq(&ys[i]) {
                        proof {
                            assert(arr_view(xs@)[i as int] != arr_view(ys@)[i as int]);
                        }
                        return false;
                    }
                    i = i + 1;
                }
                proof {
                    assert(arr_view(xs@) =~= arr_view(ys@));
                }
                true
            },
            (Value::Obj(xs), Value::Obj(ys)) => {
                proof {
                    lemma_obj_view(xs@);
                    lemma_obj_view(ys@);
                }
                if xs.len() != ys.len() {
                    proof {
                        assert(obj_view(xs@).len() != obj_view(ys@).len());
                    }
                    return false;
                }
                let mut i: usize = 0;
                while i < xs.len()
                    invariant
                        i <= xs.len(),
                        forall|j: int|
                            0 <= j < i ==> (#[trigger] xs@[j]).0@ == ys@[j].0@ && xs@[j].1@
                                == ys@[j].1@,
                    decreases xs.len() - i,
                {
                    if !str_eq(xs[i].0.as_str(), ys[i].0.as_str()) {
                        proof {
                            assert(obj_view(xs@)[i as int] != obj_view(ys@)[i as int]);
                        }
                        return false;
                    }
                    if !xs[i].1.deep_eq(&ys[i].1) {
                        proof {
                            assert(obj_view(xs@)[i as int] != obj_view(ys@)[i as int]);
                        }
                        return false;
                    }
                    i = i + 1;
                }
                proof {
                    assert(obj_view(xs@) =~= obj_view(ys@));
                }
                true
            },
            _ => false,
        }
    }

    /// Binds `key` to `val` in a mapping, keeping the keys sorted.
    #[verifier::loop_isolation(false)]
    pub fn insert_field(&mut self, key: &str, val: Value)
        requires
            old(self)@ is Obj,
        ensures
            final(self)@ == SpecValue::Obj(obj_set(old(self)@->Obj_0, key@, val@)),
    {
        let ghost old_fs = old(self)@->Obj_0;
        match self {
            Value::Obj(fields) => {
                proof {
                    lemma_obj_view(fields@);
                }
                let ghost fs = obj_view(fields@);
                let mut i: usize = 0;
                while i < fields.len()
                    invariant
                        i <= fields.len(),
                        fs == obj_view(fields@),
                        fs == old_fs,
                        fs.len() == fields@.len(),
                        forall|j: int| 0 <= j < fs.len() ==> #[trigger] fs[j] == (
                            fields@[j].0@,
                            fields@[j].1@,
                        ),
                        forall|j: int|
                            0 <= j < i ==> (#[trigger] fs[j]).0 != key@ && lex_lt(fs[j].0, key@),
                    decreases fields.len() - i,
                {
                    let same = str_eq(fields[i].0.as_str(), key);
                    let less = if same {
                        false
                    } else {
                        str_lt(key, fields[i].0.as_str())
                    };
                    if same || less {
                        proof {
                            lemma_obj_set_prefix(fs, key@, val@, i as int);
                            assert(fs.skip(i as int)[0] == fs[i as int]);
                            assert(fs.skip(i as int).drop_first() =~= fs.skip(i as int + 1));
                        }
                        let k = key.to_owned();
                        if same {
                            fields.set(i, (k, val));
                            proof {
                                lemma_obj_view(fields@);
                                assert(obj_set(fs.skip(i as int), key@, val@) == seq![
                                    (key@, val@),
                                ] + fs.skip(i as int).drop_first());
                                assert(obj_view(fields@) =~= obj_set(fs, key@, val@));
                            }
                        } else {
                            fields.insert(i, (k, val));
                            proof {
                                lemma_obj_view(fields@);
                                assert(obj_set(fs.skip(i as int), key@, val@) == seq![
                                    (key@, val@),
                                ] + fs.skip(i as int));
                                assert(obj_view(fields@) =~= obj_set(fs, key@, val@));
                            }
                        }
                        return ;
                    }
                    proof {
                        if !lex_lt(fs[i as int].0, key@) {
                            lemma_lex_lt_connected(key@, fs[i as int].0);
                        }
                    }
                    i = i + 1;
                }
                let k = key.to_owned();
                fields.push((k, val));
                proof {
                    lemma_obj_set_prefix(fs, key@, val@, fs.len() as int);
                    assert(fs.skip(fs.len() as int) =~= Seq::<(Seq<char>, SpecValue)>::empty());
                    assert(fs.take(fs.len() as int) =~= fs);
                    lemma_obj_view(fields@);
                    assert(obj_view(fields@) =~= obj_set(fs, key@, val@));
                }
            },
            _ => {
                proof {
                    assert(false);
                }
            },
        }
    }
}

/// Rewriting a mapping whose first `i` keys come before `k` inserts into
/// the remainder.
pub proof fn lemma_obj_set_prefix(
    fs: Seq<(Seq<char>, SpecValue)>,
    k: Seq<char>,
    v: SpecValue,
    i: int,
)
    requires
        0 <= i <= fs.len(),
        forall|j: int| 0 <= j < i ==> (#[trigger] fs[j]).0 != k && lex_lt(fs[j].0, k),
    ensures
        obj_set(fs, k, v) == fs.take(i) + obj_set(fs.skip(i), k, v),
    decreases i,
{
    if i == 0 {
        assert(fs.skip(0) =~= fs);
        assert(fs.take(0) + obj_set(fs, k, v) =~= obj_set(fs, k, v));
    } else {
        assert(forall|j: int|
            0 <= j < i - 1 ==> (#[trigger] fs.drop_first()[j]) == fs[j + 1]);
        lemma_obj_set_prefix(fs.drop_first(), k, v, i - 1);
        lemma_lex_lt_irrefl(k);
        assert(fs[0].0 != k && !lex_lt(k, fs[0].0)) by {
            if lex_lt(k, fs[0].0) {
                lemma_lex_lt_trans(k, fs[0].0, k);
            }
        }
        assert(fs.drop_first().skip(i - 1) =~= fs.skip(i));
        assert(obj_set(fs, k, v) == seq![fs[0]] + obj_set(fs.drop_first(), k, v));
        assert(seq![fs[0]] + (fs.drop_first().take(i - 1) + obj_set(fs.skip(i), k, v)) =~= fs.take(
            i,
        ) + obj_set(fs.skip(i), k, v));
    }
}

} // verus!
