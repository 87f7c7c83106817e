//! The mirror serialization: block-style, human-readable text with one
//! file per entity.  Mapping keys come out in their stored (sorted)
//! order; nested mappings and arrays are indented blocks; scalars are
//! written plain when that is unambiguous and double-quoted otherwise.
use vstd::prelude::*;

use crate::strings::int_rep;
use crate::strings::push_char;
use crate::strings::push_i64_dec;
use crate::json::json_escape;
use crate::value::arr_view;
use crate::value::lemma_arr_view;
use crate::value::lemma_obj_view;
use crate::value::obj_view;
use crate::value::SpecValue;
use crate::value::Value;

verus! {

/// Whether a character may appear in a plain (unquoted) scalar.
pub open spec fn plain_char(c: char) -> bool {
    (48 <= c as int <= 57) || (65 <= c as int <= 90) || (97 <= c as int <= 122) || c == ' ' || c
        == '+' || c == '-' || c == '.' || c == '_' || c == '/' || c == ',' || c as int >= 0x80
}

/// A number-shaped text: an optional sign, then digits with at most
/// one dot, which neither starts nor ends them.  Written plain, a
/// reader would take it for a number, not a string.
pub open spec fn number_shaped(t: Seq<char>) -> bool {
    let s: int = if t.len() > 0 && (t[0] == '-' || t[0] == '+') {
        1
    } else {
        0
    };
    t.len() > s && t[s] != '.' && t.last() != '.' && (forall|i: int|
        s <= i < t.len() ==> crate::json::is_digit(#[trigger] t[i]) || t[i] == '.') && (forall|
        i: int,
        j: int,
    |
        s <= i < j < t.len() && t[i] == '.' ==> t[j] != '.')
}

/// A text the mirror must quote to keep it a string: the keywords a
/// reader would take for null or a boolean, and anything number-shaped.
pub open spec fn scalar_shaped(t: Seq<char>) -> bool {
    t == "true"@ || t == "false"@ || t == "null"@ || number_shaped(t)
}

/// Whether a string may be written plain: nonempty, no leading or
/// trailing space, no leading dash, only plain characters, and not a
/// text a reader would take for a number, a boolean or null.
pub open spec fn plain_ok(t: Seq<char>) -> bool {
    t.len() > 0 && t[0] != ' ' && t[0] != '-' && t.last() != ' ' && (forall|i: int|
        0 <= i < t.len() ==> plain_char(#[trigger] t[i])) && !scalar_shaped(t)
}

/// A string scalar: plain where possible, double-quoted otherwise.
pub open spec fn yaml_str(t: Seq<char>) -> Seq<char> {
    if plain_ok(t) {
        t
    } else {
        seq!['"'] + json_escape(t) + seq!['"']
    }
}

/// A scalar rendering; mappings and arrays are not scalars.
pub open spec fn yaml_scalar(v: SpecValue) -> Seq<char> {
    match v {
        SpecValue::Null => seq!['n', 'u', 'l', 'l'],
        SpecValue::Bool(b) => if b {
            seq!['t', 'r', 'u', 'e']
        } else {
            seq!['f', 'a', 'l', 's', 'e']
        },
        SpecValue::Int(n) => int_rep(n),
        SpecValue::Str(t) => yaml_str(t),
        _ => Seq::empty(),
    }
}

/// What follows a key: an inline scalar, or an indented block.
pub open spec fn yaml_after_key(v: SpecValue, prefix: Seq<char>) -> Seq<char>
    decreases v,
{
    match v {
        SpecValue::Obj(fs) => if fs.len() == 0 {
            seq![':', ' ', '{', '}', '\n']
        } else {
            seq![':', '\n'] + yaml_fields(fs, prefix + seq![' ', ' '])
        },
        SpecValue::Arr(es) => if es.len() == 0 {
            seq![':', ' ', '[', ']', '\n']
        } else {
            seq![':', '\n'] + yaml_items(es, prefix)
        },
        _ => seq![':', ' '] + yaml_scalar(v) + seq!['\n'],
    }
}

/// One mapping field: indentation, the key, and what follows it.
pub open spec fn yaml_field(f: (Seq<char>, SpecValue), prefix: Seq<char>) -> Seq<char>
    decreases f,
{
    prefix + yaml_str(f.0) + yaml_after_key(f.1, prefix)
}

/// The fields of a mapping, one after another.
pub open spec fn yaml_fields(fs: Seq<(Seq<char>, SpecValue)>, prefix: Seq<char>) -> Seq<char>
    decreases fs,
{
    if fs.len() == 0 {
        Seq::empty()
    } else {
        yaml_fields(fs.drop_last(), prefix) + yaml_field(fs.last(), prefix)
    }
}

/// One array item: a dashed scalar line, or a dash opening a block.
pub open spec fn yaml_item(v: SpecValue, prefix: Seq<char>) -> Seq<char>
    decreases v,
{
    match v {
        SpecValue::Obj(fs) => if fs.len() == 0 {
            prefix + seq!['-', ' ', '{', '}', '\n']
        } else {
            prefix + seq!['-', '\n'] + yaml_fields(fs, prefix + seq![' ', ' '])
        },
        SpecValue::Arr(es) => if es.len() == 0 {
            prefix + seq!['-', ' ', '[', ']', '\n']
        } else {
            prefix + seq!['-', '\n'] + yaml_items(es, prefix + seq![' ', ' '])
        },
        _ => prefix + seq!['-', ' '] + yaml_scalar(v) + seq!['\n'],
    }
}

/// The items of an array, one after another.
pub open spec fn yaml_items(es: Seq<SpecValue>, prefix: Seq<char>) -> Seq<char>
    decreases es,
{
    if es.len() == 0 {
        Seq::empty()
    } else {
        yaml_items(es.drop_last(), prefix) + yaml_item(es.last(), prefix)
    }
}

/// The whole mirror document for an entity.
pub open spec fn yaml_of(v: SpecValue) -> Seq<char> {
    match v {
        SpecValue::Obj(fs) => if fs.len() == 0 {
            seq!['{', '}', '\n']
        } else {
            yaml_fields(fs, Seq::empty())
        },
        SpecValue::Arr(es) => if es.len() == 0 {
            seq!['[', ']', '\n']
        } else {
            yaml_items(es, Seq::empty())
        },
        _ => yaml_scalar(v) + seq!['\n'],
    }
}

/// Whether the text is number-shaped.
fn number_shaped_exec(t: &str) -> (r: bool)
    ensures
        r == number_shaped(t@),
{
    let n = t.unicode_len();
    let start: usize = if n > 0 && (t.get_char(0) == '-' || t.get_char(0) == '+') {
        1
    } else {
        0
    };
    if start >= n {
        return false;
    }
    if t.get_char(start) == '.' {
        return false;
    }
    if t.get_char(n - 1) == '.' {
        proof {
            assert(t@.last() == t@[n - 1]);
        }
        return false;
    }
    let mut dot_seen = false;
    let ghost mut dpos: int = 0;
    let mut i: usize = start;
    while i < n
        invariant
            n == t@.len(),
            start <= i <= n,
            start < n,
            start as int == (if t@.len() > 0 && (t@[0] == '-' || t@[0] == '+') {
                1int
            } else {
                0int
            }),
            forall|j: int|
                start <= j < i ==> crate::json::is_digit(#[trigger] t@[j]) || t@[j] == '.',
            !dot_seen ==> forall|j: int| start <= j < i ==> t@[j] != '.',
            dot_seen ==> start <= dpos < i && t@[dpos] == '.' && (forall|j: int|
                start <= j < i && j != dpos ==> t@[j] != '.'),
        decreases n - i,
    {
        let c = t.get_char(i);
        let code = c as u32;
        if c == '.' {
            if dot_seen {
                return false;
            }
            dot_seen = true;
            proof {
                dpos = i as int;
            }
        } else if !(48 <= code && code <= 57) {
            proof {
                assert(!crate::json::is_digit(t@[i as int]) && t@[i as int] != '.');
            }
            return false;
        }
        i = i + 1;
    }
    proof {
        assert(t@.last() == t@[n - 1]);
    }
    true
}

/// Whether the text must be quoted to stay a string.
fn scalar_shaped_exec(t: &str) -> (r: bool)
    ensures
        r == scalar_shaped(t@),
{
    if crate::strings::str_eq(t, "true") || crate::strings::str_eq(t, "false")
        || crate::strings::str_eq(t, "null") {
        return true;
    }
    number_shaped_exec(t)
}

/// Whether `t` can be written as a plain scalar.
fn plain_ok_exec(t: &str) -> (r: bool)
    ensures
        r == plain_ok(t@),
{
    let n = t.unicode_len();
    if n == 0 {
        return false;
    }
    let first = t.get_char(0);
    if first == ' ' || first == '-' {
        return false;
    }
    if t.get_char(n - 1) == ' ' {
        return false;
    }
    let mut i: usize = 0;
    while i < n
        invariant
            n == t@.len(),
            i <= n,
            forall|j: int| 0 <= j < i ==> plain_char(#[trigger] t@[j]),
        decreases n - i,
    {
        let c = t.get_char(i);
        let code = c as u32;
        let ok = (48 <= code && code <= 57) || (65 <= code && code <= 90) || (97 <= code && code
            <= 122) || c == ' ' || c == '+' || c == '-' || c == '.' || c == '_' || c == '/' || c
            == ',' || code >= 0x80;
        if !ok {
            return false;
        }
        i = i + 1;
    }
    if scalar_shaped_exec(t) {
        return false;
    }
    proof {
        assert(t@.last() == t@[n - 1]);
    }
    true
}

/// Appends a string scalar, plain or quoted.
fn push_yaml_str(out: &mut String, t: &str)
    ensures
        final(out)@ == old(out)@ + yaml_str(t@),
{
    if plain_ok_exec(t) {
        out.append(t);
    } else {
        push_char(out, '"');
        crate::json::push_escaped(out, t);
        push_char(out, '"');
        proof {
            assert(out@ =~= old(out)@ + yaml_str(t@));
        }
    }
}

/// Appends a scalar rendering; only called for scalar values.
fn push_yaml_scalar(out: &mut String, v: &Value)
    requires
        !(v@ is Obj),
        !(v@ is Arr),
    ensures
        final(out)@ == old(out)@ + yaml_scalar(v@),
{
    match v {
        Value::Null => {
            push_char(out, 'n');
            push_char(out, 'u');
            push_char(out, 'l');
            push_char(out, 'l');
            proof {
                assert(out@ =~= old(out)@ + yaml_scalar(v@));
            }
        },
        Value::Bool(b) => {
            if *b {
                push_char(out, 't');
                push_char(out, 'r');
                push_char(out, 'u');
                push_char(out, 'e');
            } else {
                push_char(out, 'f');
                push_char(out, 'a');
                push_char(out, 'l');
                push_char(out, 's');
                push_char(out, 'e');
            }
            proof {
                assert(out@ =~= old(out)@ + yaml_scalar(v@));
            }
        },
        Value::Int(n) => {
            push_i64_dec(out, *n);
        },
        Value::Str(t) => {
            push_yaml_str(out, t.as_str());
        },
        Value::Arr(_) => {
            proof {
                assert(false);
            }
        },
        Value::Obj(_) => {
            proof {
                assert(false);
            }
        },
    }
}

/// Appends the block for the fields of a mapping.
#[verifier::loop_isolation(false)]
#[verifier::rlimit(100)]
fn push_yaml_fields(out: &mut String, fields: &Vec<(String, Value)>, prefix: &str)
    ensures
        final(out)@ == old(out)@ + yaml_fields(obj_view(fields@), prefix@),
    decreases fields@,
{
    let ghost fs = obj_view(fields@);
    proof {
        lemma_obj_view(fields@);
    }
    let mut i: usize = 0;
    while i < fields.len()
        invariant
            i <= fields.len(),
            out@ == old(out)@ + yaml_fields(fs.take(i as int), prefix@),
        decreases fields.len() - i,
    {
        let ghost out_pre = out@;
        out.append(prefix);
        push_yaml_str(out, fields[i].0.as_str());
        let v = &fields[i].1;
        match v {
            Value::Obj(inner) => {
                if inner.len() == 0 {
                    push_char(out, ':');
                    push_char(out, ' ');
                    push_char(out, '{');
                    push_char(out, '}');
                    push_char(out, '\n');
                    proof {
                        lemma_obj_view(inner@);
                        assert(obj_view(inner@) =~= Seq::<(Seq<char>, SpecValue)>::empty());
                    }
                } else {
                    push_char(out, ':');
                    push_char(out, '\n');
                    let mut p2 = prefix.to_owned();
                    p2.append("  ");
                    push_yaml_fields(out, inner, p2.as_str());
                    proof {
                        reveal_strlit("  ");
                        assert(p2@ =~= prefix@ + seq![' ', ' ']);
                        lemma_obj_view(inner@);
                        assert(obj_view(inner@).len() > 0);
                    }
                }
            },
            Value::Arr(inner) => {
                if inner.len() == 0 {
                    push_char(out, ':');
                    push_char(out, ' ');
                    push_char(out, '[');
                    push_char(out, ']');
                    push_char(out, '\n');
                    proof {
                        lemma_arr_view(inner@);
                        assert(arr_view(inner@) =~= Seq::<SpecValue>::empty());
                    }
                } else {
                    push_char(out, ':');
                    push_char(out, '\n');
                    push_yaml_items(out, inner, prefix);
                    proof {
                        lemma_arr_view(inner@);
                        assert(arr_view(inner@).len() > 0);
                    }
                }
            },
            _ => {
                push_char(out, ':');
                push_char(out, ' ');
                push_yaml_scalar(out, v);
                push_char(out, '\n');
            },
        }
        proof {
            assert(fs.take(i as int + 1).drop_last() =~= fs.take(i as int));
            assert(fs.take(i as int + 1).last() == fs[i as int]);
            assert(fs[i as int] == (fields@[i as int].0@, fields@[i as int].1@));
            assert(out@ =~= out_pre + yaml_field(fs[i as int], prefix@));
            assert(out@ =~= old(out)@ + yaml_fields(fs.take(i as int + 1), prefix@));
        }
        i = i + 1;
    }
    proof {
        assert(fs.take(fs.len() as int) =~= fs);
    }
}

/// Appends the block for the items of an array.
#[verifier::loop_isolation(false)]
#[verifier::rlimit(100)]
fn push_yaml_items(out: &mut String, items: &Vec<Value>, prefix: &str)
    ensures
        final(out)@ == old(out)@ + yaml_items(arr_view(items@), prefix@),
    decreases items@,
{
    let ghost es = arr_view(items@);
    proof {
        lemma_arr_view(items@);
    }
    let mut i: usize = 0;
    while i < items.len()
        invariant
            i <= items.len(),
            out@ == old(out)@ + yaml_items(es.take(i as int), prefix@),
        decreases items.len() - i,
    {
        let ghost out_pre = out@;
        let v = &items[i];
        match v {
            Value::Obj(inner) => {
                out.append(prefix);
                if inner.len() == 0 {
                    push_char(out, '-');
                    push_char(out, ' ');
                    push_char(out, '{');
                    push_char(out, '}');
                    push_char(out, '\n');
                    proof {
                        lemma_obj_view(inner@);
                        assert(obj_view(inner@) =~= Seq::<(Seq<char>, SpecValue)>::empty());
                    }
                } else {
                    push_char(out, '-');
                    push_char(out, '\n');
                    let mut p2 = prefix.to_owned();
                    p2.append("  ");
                    push_yaml_fields(out, inner, p2.as_str());
                    proof {
                        reveal_strlit("  ");
                        assert(p2@ =~= prefix@ + seq![' ', ' ']);
                        lemma_obj_view(inner@);
                        assert(obj_view(inner@).len() > 0);
                    }
                }
            },
            Value::Arr(inner) => {
                out.append(prefix);
                if inner.len() == 0 {
                    push_char(out, '-');
                    push_char(out, ' ');
                    push_char(out, '[');
                    push_char(out, ']');
                    push_char(out, '\n');
                    proof {
                        lemma_arr_view(inner@);
                        assert(arr_view(inner@) =~= Seq::<SpecValue>::empty());
                    }
                } else {
                    push_char(out, '-');
                    push_char(out, '\n');
                    let mut p2 = prefix.to_owned();
                    p2.append("  ");
                    push_yaml_items(out, inner, p2.as_str());
                    proof {
                        reveal_strlit("  ");
                        assert(p2@ =~= prefix@ + seq![' ', ' ']);
                        lemma_arr_view(inner@);
                        assert(arr_view(inner@).len() > 0);
                    }
                }
            },
            _ => {
                out.append(prefix);
                push_char(out, '-');
                push_char(out, ' ');
                push_yaml_scalar(out, v);
                push_char(out, '\n');
            },
        }
        proof {
            assert(es.take(i as int + 1).drop_last() =~= es.take(i as int));
            assert(es.take(i as int + 1).last() == es[i as int]);
            assert(es[i as int] == items@[i as int]@);
            assert(out@ =~= out_pre + yaml_item(es[i as int], prefix@));
            assert(out@ =~= old(out)@ + yaml_items(es.take(i as int + 1), prefix@));
        }
        i = i + 1;
    }
    proof {
        assert(es.take(es.len() as int) =~= es);
    }
}

/// The mirror text of an entity.
pub fn to_yaml(v: &Value) -> (r: String)
    ensures
        r@ == yaml_of(v@),
{
    let mut out = String::new();
    match v {
        Value::Obj(fields) => {
            if fields.len() == 0 {
                push_char(&mut out, '{');
                push_char(&mut out, '}');
                push_char(&mut out, '\n');
                proof {
                    lemma_obj_view(fields@);
                    assert(obj_view(fields@) =~= Seq::<(Seq<char>, SpecValue)>::empty());
                    assert(out@ =~= yaml_of(v@));
                }
            } else {
                push_yaml_fields(&mut out, fields, "");
                proof {
                    reveal_strlit("");
                    lemma_obj_view(fields@);
                    assert(obj_view(fields@).len() > 0);
                    assert(""@ =~= Seq::<char>::empty());
                    assert(out@ =~= yaml_of(v@));
                }
            }
        },
        Value::Arr(items) => {
            if items.len() == 0 {
                push_char(&mut out, '[');
                push_char(&mut out, ']');
                push_char(&mut out, '\n');
                proof {
                    lemma_arr_view(items@);
                    assert(arr_view(items@) =~= Seq::<SpecValue>::empty());
                    assert(out@ =~= yaml_of(v@));
                }
            } else {
                push_yaml_items(&mut out, items, "");
                proof {
                    reveal_strlit("");
                    lemma_arr_view(items@);
                    assert(arr_view(items@).len() > 0);
                    assert(""@ =~= Seq::<char>::empty());
                    assert(out@ =~= yaml_of(v@));
                }
            }
        },
        _ => {
            push_yaml_scalar(&mut out, v);
            push_char(&mut out, '\n');
            proof {
                assert(out@ =~= yaml_of(v@));
            }
        },
    }
    out
}

} // verus!
