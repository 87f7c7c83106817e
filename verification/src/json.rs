//! The canonical serialized form of an entity: compact JSON text with
//! sorted keys, no whitespace, and a fixed escape policy.  This text is
//! what the relational store holds in its `content` column.  The reader
//! accepts exactly the canonical form: whatever it returns re-renders to
//! the bytes it read.
use vstd::prelude::*;

use crate::strings::dec_digit;
use crate::strings::dec_rep;
use crate::strings::int_rep;
use crate::strings::lex_lt;
use crate::strings::push_char;
use crate::strings::push_i64_dec;
use crate::strings::str_lt;
use crate::value::arr_view;
use crate::value::lemma_arr_view;
use crate::value::lemma_wf_arr;
use crate::value::lemma_wf_fields;
use crate::value::lemma_obj_view;
use crate::value::obj_keys_sorted;
use crate::value::obj_view;
use crate::value::wf;
use crate::value::wf_arr;
use crate::value::wf_fields;
use crate::value::SpecValue;
use crate::value::Value;

verus! {

/// The character for a hexadecimal digit, lower case.
pub open spec fn hex_digit(d: int) -> char {
    if d < 10 {
        dec_digit(d)
    } else if d == 10 {
        'a'
    } else if d == 11 {
        'b'
    } else if d == 12 {
        'c'
    } else if d == 13 {
        'd'
    } else if d == 14 {
        'e'
    } else {
        'f'
    }
}

/// How one character appears inside a JSON string literal: quotes and
/// backslashes get a backslash, the common control characters their
/// short escapes, the remaining control characters a `\u00XX` escape,
/// and everything else stands for itself.
pub open spec fn esc_char(c: char) -> Seq<char> {
    if c == '"' {
        seq!['\\', '"']
    } else if c == '\\' {
        seq!['\\', '\\']
    } else if c == '\u{08}' {
        seq!['\\', 'b']
    } else if c == '\u{09}' {
        seq!['\\', 't']
    } else if c == '\u{0a}' {
        seq!['\\', 'n']
    } else if c == '\u{0c}' {
        seq!['\\', 'f']
    } else if c == '\u{0d}' {
        seq!['\\', 'r']
    } else if (c as int) < 0x20 {
        seq!['\\', 'u', '0', '0', hex_digit((c as int) / 16), hex_digit((c as int) % 16)]
    } else {
        seq![c]
    }
}

/// The body of a JSON string literal.
pub open spec fn json_escape(t: Seq<char>) -> Seq<char>
    decreases t.len(),
{
    if t.len() == 0 {
        Seq::empty()
    } else {
        json_escape(t.drop_last()) + esc_char(t.last())
    }
}

/// The canonical JSON rendering of a value.
pub open spec fn json_of(v: SpecValue) -> Seq<char>
    decreases v,
{
    match v {
        SpecValue::Null => seq!['n', 'u', 'l', 'l'],
        SpecValue::Bool(b) => if b {
            seq!['t', 'r', 'u', 'e']
        } else {
            seq!['f', 'a', 'l', 's', 'e']
        },
        SpecValue::Int(n) => int_rep(n),
        SpecValue::Str(t) => seq!['"'] + json_escape(t) + seq!['"'],
        SpecValue::Arr(es) => seq!['['] + json_of_arr(es) + seq![']'],
        SpecValue::Obj(fs) => seq!['{'] + json_of_obj(fs) + seq!['}'],
    }
}

/// The comma-separated renderings of array elements.
pub open spec fn json_of_arr(es: Seq<SpecValue>) -> Seq<char>
    decreases es,
{
    if es.len() == 0 {
        Seq::empty()
    } else if es.len() == 1 {
        json_of(es[0])
    } else {
        json_of_arr(es.drop_last()) + seq![','] + json_of(es.last())
    }
}

/// The rendering of one mapping field: quoted key, colon, value.
pub open spec fn json_of_field(f: (Seq<char>, SpecValue)) -> Seq<char>
    decreases f,
{
    seq!['"'] + json_escape(f.0) + seq!['"', ':'] + json_of(f.1)
}

/// The comma-separated renderings of mapping fields.
pub open spec fn json_of_obj(fs: Seq<(Seq<char>, SpecValue)>) -> Seq<char>
    decreases fs,
{
    if fs.len() == 0 {
        Seq::empty()
    } else if fs.len() == 1 {
        json_of_field(fs[0])
    } else {
        json_of_obj(fs.drop_last()) + seq![','] + json_of_field(fs.last())
    }
}

fn hex_digit_char(d: u32) -> (c: char)
    requires
        d < 16,
    ensures
        c == hex_digit(d as int),
{
    match d {
        0 => '0',
        1 => '1',
        2 => '2',
        3 => '3',
        4 => '4',
        5 => '5',
        6 => '6',
        7 => '7',
        8 => '8',
        9 => '9',
        10 => 'a',
        11 => 'b',
        12 => 'c',
        13 => 'd',
        14 => 'e',
        _ => 'f',
    }
}

/// Appends the escaped form of the characters of `t` to `out`.
pub(crate) fn push_escaped(out: &mut String, t: &str)
    ensures
        final(out)@ == old(out)@ + json_escape(t@),
{
    let n = t.unicode_len();
    let mut i: usize = 0;
    while i < n
        invariant
            n == t@.len(),
            i <= n,
            out@ == old(out)@ + json_escape(t@.take(i as int)),
        decreases n - i,
    {
        let c = t.get_char(i);
        if c == '"' {
            push_char(out, '\\');
            push_char(out, '"');
        } else if c == '\\' {
            push_char(out, '\\');
            push_char(out, '\\');
        } else if c == '\u{08}' {
            push_char(out, '\\');
            push_char(out, 'b');
        } else if c == '\u{09}' {
            push_char(out, '\\');
            push_char(out, 't');
        } else if c == '\u{0a}' {
            push_char(out, '\\');
            push_char(out, 'n');
        } else if c == '\u{0c}' {
            push_char(out, '\\');
            push_char(out, 'f');
        } else if c == '\u{0d}' {
            push_char(out, '\\');
            push_char(out, 'r');
        } else if (c as u32) < 0x20 {
            push_char(out, '\\');
            push_char(out, 'u');
            push_char(out, '0');
            push_char(out, '0');
            push_char(out, hex_digit_char((c as u32) / 16));
            push_char(out, hex_digit_char((c as u32) % 16));
        } else {
            push_char(out, c);
        }
        proof {
            assert(t@.take(i as int + 1).drop_last() =~= t@.take(i as int));
            assert(t@.take(i as int + 1).last() == t@[i as int]);
            assert(out@ =~= old(out)@ + json_escape(t@.take(i as int + 1)));
        }
        i = i + 1;
    }
    proof {
        assert(t@.take(n as int) =~= t@);
    }
}

/// Appends the canonical JSON rendering of `v` to `out`.
#[verifier::loop_isolation(false)]
#[verifier::rlimit(100)]
pub fn push_json(out: &mut String, v: &Value)
    ensures
        final(out)@ == old(out)@ + json_of(v@),
    decreases v,
{
    match v {
        Value::Null => {
            push_char(out, 'n');
            push_char(out, 'u');
            push_char(out, 'l');
            push_char(out, 'l');
            proof {
                assert(out@ =~= old(out)@ + json_of(v@));
            }
        },
        Value::Bool(b) => {
            if *b {
                push_char(out, 't');
                push_char(out, 'r');
                push_char(out, 'u');
                push_char(out, 'e');
            } else {
                push_char(out, 'f');
                push_char(out, 'a');
                push_char(out, 'l');
                push_char(out, 's');
                push_char(out, 'e');
            }
            proof {
                assert(out@ =~= old(out)@ + json_of(v@));
            }
        },
        Value::Int(n) => {
            push_i64_dec(out, *n);
        },
        Value::Str(t) => {
            push_char(out, '"');
            push_escaped(out, t.as_str());
            push_char(out, '"');
            proof {
                assert(out@ =~= old(out)@ + json_of(v@));
            }
        },
        Value::Arr(vs) => {
            push_char(out, '[');
            let ghost es = arr_view(vs@);
            proof {
                lemma_arr_view(vs@);
            }
            let mut i: usize = 0;
            while i < vs.len()
                invariant
                    i <= vs.len(),
                    out@ == old(out)@ + seq!['['] + json_of_arr(es.take(i as int)),
                decreases vs.len() - i,
            {
                if i > 0 {
                    push_char(out, ',');
                }
                push_json(out, &vs[i]);
                proof {
                    assert(es.take(i as int + 1).drop_last() =~= es.take(i as int));
                    assert(es.take(i as int + 1).last() == es[i as int]);
                    if i == 0 {
                        assert(es.take(1).len() == 1 && es.take(1)[0] == es[0]);
                    }
                    assert(out@ =~= old(out)@ + seq!['['] + json_of_arr(es.take(i as int + 1)));
                }
                i = i + 1;
            }
            push_char(out, ']');
            proof {
                assert(es.take(es.len() as int) =~= es);
                assert(out@ =~= old(out)@ + json_of(v@));
            }
        },
        Value::Obj(fields) => {
            push_char(out, '{');
            let ghost fs = obj_view(fields@);
            proof {
                lemma_obj_view(fields@);
            }
            let mut i: usize = 0;
            while i < fields.len()
                invariant
                    i <= fields.len(),
                    out@ == old(out)@ + seq!['{'] + json_of_obj(fs.take(i as int)),
                decreases fields.len() - i,
            {
                if i > 0 {
                    push_char(out, ',');
                }
                push_char(out, '"');
                push_escaped(out, fields[i].0.as_str());
                push_char(out, '"');
                push_char(out, ':');
                push_json(out, &fields[i].1);
                proof {
                    assert(fs.take(i as int + 1).drop_last() =~= fs.take(i as int));
                    assert(fs.take(i as int + 1).last() == fs[i as int]);
                    assert(fs[i as int] == (fields@[i as int].0@, fields@[i as int].1@));
                    assert(json_of_field(fs[i as int]) == seq!['"'] + json_escape(
                        fs[i as int].0,
                    ) + seq!['"', ':'] + json_of(fs[i as int].1));
                    if i == 0 {
                        assert(fs.take(1).len() == 1 && fs.take(1)[0] == fs[0]);
                    }
                    assert(out@ =~= old(out)@ + seq!['{'] + json_of_obj(fs.take(i as int + 1)));
                }
                i = i + 1;
            }
            push_char(out, '}');
            proof {
                assert(fs.take(fs.len() as int) =~= fs);
                assert(out@ =~= old(out)@ + json_of(v@));
            }
        },
    }
}

/// The canonical JSON text of a value.
pub fn to_json(v: &Value) -> (r: String)
    ensures
        r@ == json_of(v@),
{
    let mut out = String::new();
    push_json(&mut out, v);
    proof {
        assert(out@ =~= json_of(v@));
    }
    out
}

/// Whether a character is a decimal digit.
pub open spec fn is_digit(c: char) -> bool {
    48 <= c as int <= 57
}

fn digit_val(c: char) -> (r: Option<u8>)
    ensures
        match r {
            Some(d) => d < 10 && c == dec_digit(d as int),
            None => !is_digit(c),
        },
{
    match c {
        '0' => Some(0),
        '1' => Some(1),
        '2' => Some(2),
        '3' => Some(3),
        '4' => Some(4),
        '5' => Some(5),
        '6' => Some(6),
        '7' => Some(7),
        '8' => Some(8),
        '9' => Some(9),
        _ => None,
    }
}

fn hex_val(c: char) -> (r: Option<u8>)
    ensures
        match r {
            Some(d) => d < 16 && c == hex_digit(d as int),
            None => forall|d: int| 0 <= d < 16 ==> c != #[trigger] hex_digit(d),
        },
{
    match c {
        '0' => Some(0),
        '1' => Some(1),
        '2' => Some(2),
        '3' => Some(3),
        '4' => Some(4),
        '5' => Some(5),
        '6' => Some(6),
        '7' => Some(7),
        '8' => Some(8),
        '9' => Some(9),
        'a' => Some(10),
        'b' => Some(11),
        'c' => Some(12),
        'd' => Some(13),
        'e' => Some(14),
        'f' => Some(15),
        _ => {
            proof {
                assert forall|d: int| 0 <= d < 16 implies c != hex_digit(d) by {
                    assert(hex_digit(0) == '0' && hex_digit(1) == '1' && hex_digit(2) == '2'
                        && hex_digit(3) == '3' && hex_digit(4) == '4' && hex_digit(5) == '5'
                        && hex_digit(6) == '6' && hex_digit(7) == '7' && hex_digit(8) == '8'
                        && hex_digit(9) == '9' && hex_digit(10) == 'a' && hex_digit(11) == 'b'
                        && hex_digit(12) == 'c' && hex_digit(13) == 'd' && hex_digit(14) == 'e'
                        && hex_digit(15) == 'f');
                }
            }
            None
        },
    }
}

fn low_char(v: u8) -> (c: char)
    requires
        v < 32,
    ensures
        c as int == v as int,
{
    match v {
        0 => '\u{00}',
        1 => '\u{01}',
        2 => '\u{02}',
        3 => '\u{03}',
        4 => '\u{04}',
        5 => '\u{05}',
        6 => '\u{06}',
        7 => '\u{07}',
        8 => '\u{08}',
        9 => '\u{09}',
        10 => '\u{0a}',
        11 => '\u{0b}',
        12 => '\u{0c}',
        13 => '\u{0d}',
        14 => '\u{0e}',
        15 => '\u{0f}',
        16 => '\u{10}',
        17 => '\u{11}',
        18 => '\u{12}',
        19 => '\u{13}',
        20 => '\u{14}',
        21 => '\u{15}',
        22 => '\u{16}',
        23 => '\u{17}',
        24 => '\u{18}',
        25 => '\u{19}',
        26 => '\u{1a}',
        27 => '\u{1b}',
        28 => '\u{1c}',
        29 => '\u{1d}',
        30 => '\u{1e}',
        _ => '\u{1f}',
    }
}

/// Rendering one more decimal digit appends its character.
pub proof fn lemma_dec_rep_snoc(a: nat, d: nat)
    requires
        1 <= a,
        d < 10,
    ensures
        dec_rep((a * 10 + d) as nat) == dec_rep(a) + seq![dec_digit(d as int)],
{
    let m = a * 10 + d;
    assert(m >= 10 && m / 10 == a && m % 10 == d) by (nonlinear_arith)
        requires
            1 <= a,
            0 <= d < 10,
            m == a * 10 + d,
    ;
}

/// A positive number's rendering never starts with a zero digit.
proof fn lemma_dec_rep_no_leading_zero(n: nat)
    requires
        n >= 1,
    ensures
        dec_rep(n)[0] != '0',
    decreases n,
{
    if n >= 10 {
        lemma_dec_rep_no_leading_zero(n / 10);
        assert(dec_rep(n)[0] == dec_rep(n / 10)[0]);
    }
}

/// A number whose rendering is a front part of another's is no larger.
proof fn lemma_dec_rep_prefix_le(a: nat, b: nat)
    requires
        dec_rep(a).len() <= dec_rep(b).len(),
        dec_rep(a) == dec_rep(b).take(dec_rep(a).len() as int),
    ensures
        a <= b,
    decreases b,
{
    if dec_rep(a).len() == dec_rep(b).len() {
        assert(dec_rep(b).take(dec_rep(a).len() as int) =~= dec_rep(b));
        lemma_dec_rep_injective(a, b);
    } else {
        assert(b >= 10) by {
            if b < 10 {
                assert(dec_rep(b).len() == 1);
                lemma_dec_rep_digits(a);
            }
        }
        assert(dec_rep(b).drop_last() =~= dec_rep(b / 10));
        assert(dec_rep(a) =~= dec_rep(b / 10).take(dec_rep(a).len() as int)) by {
            assert(forall|j: int|
                0 <= j < dec_rep(a).len() ==> dec_rep(b)[j] == dec_rep(b / 10)[j]);
        }
        lemma_dec_rep_prefix_le(a, b / 10);
    }
}

/// Escaping distributes over joining two texts.
proof fn lemma_json_escape_app(a: Seq<char>, b: Seq<char>)
    ensures
        json_escape(a + b) == json_escape(a) + json_escape(b),
    decreases b.len(),
{
    if b.len() == 0 {
        assert(a + b =~= a);
        assert(json_escape(a) + json_escape(b) =~= json_escape(a));
    } else {
        lemma_json_escape_app(a, b.drop_last());
        assert((a + b).drop_last() =~= a + b.drop_last());
        assert((a + b).last() == b.last());
        assert(json_escape(a + b) =~= json_escape(a) + json_escape(b));
    }
}

/// Reads a canonical integer literal, greedily through its digits.  On
/// success the consumed text is exactly the canonical rendering of the
/// returned number and no digit follows it; and it succeeds whenever
/// the text ahead is the canonical rendering of a number that fits,
/// with no digit right after.
#[verifier::rlimit(100)]
fn parse_int(s: &str, pos: usize) -> (r: Option<(i64, usize)>)
    requires
        pos < s@.len(),
    ensures
        r matches Some((m, end)) ==> pos < end <= s@.len() && s@.subrange(
            pos as int,
            end as int,
        ) == int_rep(m as int) && (end == s@.len() || !is_digit(s@[end as int])),
        (exists|m: i64, end: int|
            pos < end <= s@.len() && s@.subrange(pos as int, end) == int_rep(m as int) && (end
                == s@.len() || !is_digit(s@[end]))) ==> r is Some,
{
    let ghost hyp = exists|m: i64, end: int|
        pos < end <= s@.len() && s@.subrange(pos as int, end) == int_rep(m as int) && (end
            == s@.len() || !is_digit(s@[end]));
    let ghost w = choose|m: i64, end: int|
        pos < end <= s@.len() && s@.subrange(pos as int, end) == int_rep(m as int) && (end
            == s@.len() || !is_digit(s@[end]));
    let ghost m0 = w.0;
    let ghost end0 = w.1;
    let ghost am: nat = if m0 < 0 {
        (-(m0 as int)) as nat
    } else {
        m0 as nat
    };
    proof {
        if hyp {
            lemma_int_witness_shape(s@, pos as int, m0, end0);
        }
    }
    let n = s.unicode_len();
    let neg = s.get_char(pos) == '-';
    proof {
        if hyp {
            if m0 >= 0 {
                assert(is_digit(s@[pos as int]));
                assert(!neg);
            }
            assert(neg == (m0 < 0));
        }
    }
    let dstart: usize = if neg {
        pos + 1
    } else {
        pos
    };
    if dstart >= n {
        proof {
            if hyp {
                assert(end0 > dstart);
            }
        }
        return None;
    }
    let d0 = match digit_val(s.get_char(dstart)) {
        Some(d) => d,
        None => {
            proof {
                if hyp {
                    assert(is_digit(s@[dstart as int]));
                }
            }
            return None;
        },
    };
    if d0 == 0 {
        proof {
            if hyp {
                assert(s@[dstart as int] == dec_digit(0));
                assert(dec_rep(am)[0] == s@[dstart as int]);
                if am >= 1 {
                    lemma_dec_rep_no_leading_zero(am);
                }
                assert(am == 0);
                assert(!neg);
                assert(dec_rep(0) == seq![dec_digit(0)]);
                assert(end0 == pos + 1);
            }
        }
        if neg {
            return None;
        }
        if pos + 1 < n {
            match digit_val(s.get_char(pos + 1)) {
                Some(_) => {
                    proof {
                        if hyp {
                            assert(!is_digit(s@[pos as int + 1]));
                        }
                    }
                    return None;
                },
                None => {},
            }
        }
        proof {
            assert(int_rep(0) == dec_rep(0));
            assert(dec_rep(0) == seq![dec_digit(0)]);
            assert(s@.subrange(pos as int, pos as int + 1) =~= seq![s@[pos as int]]);
        }
        return Some((0i64, pos + 1));
    }
    let mut acc: u64 = d0 as u64;
    let mut i: usize = dstart + 1;
    proof {
        assert(s@.subrange(dstart as int, dstart as int + 1) =~= seq![s@[dstart as int]]);
        assert(dec_rep(acc as nat) == seq![dec_digit(d0 as int)]);
        if hyp {
            assert(end0 > dstart);
        }
    }
    while i < n
        invariant
            n == s@.len(),
            pos < n,
            dstart < i <= n,
            1 <= acc,
            s@.subrange(dstart as int, i as int) == dec_rep(acc as nat),
            hyp == (exists|m: i64, end: int|
                pos < end <= s@.len() && s@.subrange(pos as int, end) == int_rep(m as int) && (
                end == s@.len() || !is_digit(s@[end]))),
            hyp ==> pos < end0 <= s@.len() && s@.subrange(pos as int, end0) == int_rep(
                m0 as int,
            ) && (end0 == s@.len() || !is_digit(s@[end0])) && am == (if m0 < 0 {
                (-(m0 as int)) as nat
            } else {
                m0 as nat
            }) && dstart as int == (if m0 < 0 {
                pos as int + 1
            } else {
                pos as int
            }) && i <= end0,
        ensures
            dstart < i <= n,
            1 <= acc,
            s@.subrange(dstart as int, i as int) == dec_rep(acc as nat),
            i == n || !is_digit(s@[i as int]),
            hyp ==> i == end0,
        decreases n - i,
    {
        let d = match digit_val(s.get_char(i)) {
            Some(d) => d,
            None => {
                proof {
                    if hyp && i < end0 {
                        lemma_int_witness_shape(s@, pos as int, m0, end0);
                        assert(is_digit(s@[i as int]));
                    }
                }
                break ;
            },
        };
        proof {
            if hyp {
                lemma_int_witness_shape(s@, pos as int, m0, end0);
                assert(i < end0) by {
                    if i == end0 {
                        assert(!is_digit(s@[i as int]));
                    }
                }
                lemma_dec_rep_snoc(acc as nat, d as nat);
                let a2 = (acc * 10 + d) as nat;
                assert(dec_rep(a2) =~= s@.subrange(dstart as int, i as int + 1)) by {
                    assert(s@.subrange(dstart as int, i as int + 1) =~= s@.subrange(
                        dstart as int,
                        i as int,
                    ) + seq![s@[i as int]]);
                    assert(s@[i as int] == dec_digit(d as int));
                }
                assert(dec_rep(a2) =~= dec_rep(am).take(dec_rep(a2).len() as int)) by {
                    assert(forall|j: int|
                        dstart <= j < end0 ==> dec_rep(am)[j - dstart] == s@[j]);
                }
                lemma_dec_rep_prefix_le(a2, am);
                assert(a2 <= am <= 9223372036854775808);
            }
        }
        if acc > (u64::MAX - (d as u64)) / 10 {
            proof {
                if hyp {
                    assert(acc * 10 + (d as u64) > u64::MAX) by (nonlinear_arith)
                        requires
                            acc > (u64::MAX - (d as u64)) / 10,
                            d < 10,
                    ;
                }
            }
            return None;
        }
        proof {
            assert(acc * 10 + (d as u64) <= u64::MAX) by (nonlinear_arith)
                requires
                    acc <= (u64::MAX - (d as u64)) / 10,
                    d < 10,
            ;
            lemma_dec_rep_snoc(acc as nat, d as nat);
            assert(s@.subrange(dstart as int, i as int + 1) =~= s@.subrange(
                dstart as int,
                i as int,
            ) + seq![s@[i as int]]);
        }
        acc = acc * 10 + (d as u64);
        i = i + 1;
    }
    proof {
        if hyp {
            lemma_int_witness_shape(s@, pos as int, m0, end0);
            assert(s@.subrange(dstart as int, end0) =~= dec_rep(am));
            lemma_dec_rep_injective(acc as nat, am);
            assert(acc as nat == am);
        }
    }
    if neg {
        proof {
            assert(s@.subrange(pos as int, i as int) =~= seq!['-'] + s@.subrange(
                dstart as int,
                i as int,
            ));
        }
        if acc > 9223372036854775808u64 {
            return None;
        }
        if acc == 9223372036854775808u64 {
            return Some((i64::MIN, i));
        }
        let m: i64 = -(acc as i64);
        Some((m, i))
    } else {
        if acc > 9223372036854775807u64 {
            return None;
        }
        Some((acc as i64, i))
    }
}

/// The shape of a rendered number sitting in a larger text: an optional
/// sign, then the magnitude's digits and nothing else.
proof fn lemma_int_witness_shape(s: Seq<char>, pos: int, m: i64, end: int)
    requires
        0 <= pos < end <= s.len(),
        s.subrange(pos, end) == int_rep(m as int),
    ensures
        m < 0 ==> s[pos] == '-' && end >= pos + 2 && s.subrange(pos + 1, end) == dec_rep(
            (-(m as int)) as nat,
        ),
        m >= 0 ==> is_digit(s[pos]) && s.subrange(pos, end) == dec_rep(m as nat),
        ({
            let am: nat = if m < 0 {
                (-(m as int)) as nat
            } else {
                m as nat
            };
            let dstart: int = if m < 0 {
                pos + 1
            } else {
                pos
            };
            &&& s.subrange(dstart, end) == dec_rep(am)
            &&& end - dstart == dec_rep(am).len()
            &&& forall|j: int| dstart <= j < end ==> is_digit(#[trigger] s[j])
        }),
{
    lemma_int_rep_shape(m as int);
    let am: nat = if m < 0 {
        (-(m as int)) as nat
    } else {
        m as nat
    };
    lemma_dec_rep_digits(am);
    if m < 0 {
        assert(int_rep(m as int) == seq!['-'] + dec_rep(am));
        assert(s[pos] == int_rep(m as int)[0]);
        assert(s.subrange(pos + 1, end) =~= dec_rep(am)) by {
            assert(forall|j: int|
                0 <= j < end - pos - 1 ==> #[trigger] s.subrange(pos + 1, end)[j] == s.subrange(
                    pos,
                    end,
                )[j + 1]);
        }
        assert forall|j: int| pos + 1 <= j < end implies is_digit(#[trigger] s[j]) by {
            assert(s[j] == dec_rep(am)[j - pos - 1]);
        }
    } else {
        assert(int_rep(m as int) == dec_rep(am));
        assert(s[pos] == int_rep(m as int)[0]);
        assert forall|j: int| pos <= j < end implies is_digit(#[trigger] s[j]) by {
            assert(s[j] == dec_rep(am)[j - pos]);
        }
    }
}

/// Where the scan of a rendered string literal stands: the part read
/// so far is a front part of the witness, and the text ahead continues
/// with the next character's escape or the closing quote.
proof fn lemma_string_witness_at(
    s: Seq<char>,
    pos: int,
    t0: Seq<char>,
    end0: int,
    outv: Seq<char>,
    i: int,
)
    requires
        0 <= pos < end0 <= s.len(),
        s.subrange(pos, end0) == seq!['"'] + json_escape(t0) + seq!['"'],
        pos + 1 <= i <= s.len(),
        s.subrange(pos + 1, i) == json_escape(outv),
        outv.len() <= t0.len(),
        outv == t0.take(outv.len() as int),
    ensures
        i <= end0 - 1,
        outv.len() == t0.len() ==> i == end0 - 1 && s[i] == '"',
        outv.len() < t0.len() ==> i + esc_char(t0[outv.len() as int]).len() <= end0 - 1 && (forall|
            j: int,
        |
            0 <= j < esc_char(t0[outv.len() as int]).len() ==> s[i + j] == esc_char(
                t0[outv.len() as int],
            )[j]),
{
    let body = json_escape(t0);
    assert(s.subrange(pos, end0).len() == end0 - pos);
    assert forall|j: int| pos + 1 <= j < end0 - 1 implies #[trigger] s[j] == body[j - (pos
        + 1)] by {
        assert(s.subrange(pos, end0)[j - pos] == s[j]);
        assert((seq!['"'] + body + seq!['"'])[j - pos] == body[j - pos - 1]);
    }
    assert(s.subrange(pos + 1, end0 - 1) =~= body);
    let k = outv.len() as int;
    let rest = t0.skip(k);
    assert(t0 =~= outv + rest);
    lemma_json_escape_app(outv, rest);
    assert(body == json_escape(outv) + json_escape(rest));
    assert(i - (pos + 1) == json_escape(outv).len());
    assert(end0 - 1 - (pos + 1) == body.len());
    assert(i <= end0 - 1);
    if outv.len() == t0.len() {
        assert(rest =~= Seq::<char>::empty());
        assert(json_escape(rest) =~= Seq::<char>::empty());
        assert(i == end0 - 1);
        assert(s[i] == (seq!['"'] + body + seq!['"'])[end0 - 1 - pos]);
    } else {
        assert(rest.len() > 0);
        assert(rest[0] == t0[k]);
        lemma_escape_front(rest);
        let e = esc_char(t0[k]);
        assert(json_escape(rest) == e + json_escape(rest.drop_first()));
        assert(i + e.len() <= end0 - 1);
        assert forall|j: int| 0 <= j < e.len() implies s[i + j] == e[j] by {
            assert(body[(i - (pos + 1)) + j] == json_escape(rest)[j]);
            assert(json_escape(rest)[j] == e[j]);
            assert(s[i + j] == s.subrange(pos + 1, end0 - 1)[(i - (pos + 1)) + j]);
        }
    }
}

/// Reads a canonical string literal.  On success the consumed text is
/// exactly the quoted, escaped rendering of the returned string; and it
/// succeeds whenever the text ahead is such a rendering.
#[verifier::loop_isolation(false)]
#[verifier::rlimit(100)]
fn parse_string(s: &str, pos: usize) -> (r: Option<(String, usize)>)
    requires
        pos < s@.len(),
        s@[pos as int] == '"',
    ensures
        r matches Some((t, end)) ==> pos < end <= s@.len() && s@.subrange(pos as int, end as int)
            == seq!['"'] + json_escape(t@) + seq!['"'],
        (exists|t: Seq<char>, end: int|
            pos < end <= s@.len() && s@.subrange(pos as int, end) == seq!['"'] + json_escape(t)
                + seq!['"']) ==> r is Some,
{
    let ghost hyp = exists|t: Seq<char>, end: int|
        pos < end <= s@.len() && s@.subrange(pos as int, end) == seq!['"'] + json_escape(t)
            + seq!['"'];
    let ghost w = choose|t: Seq<char>, end: int|
        pos < end <= s@.len() && s@.subrange(pos as int, end) == seq!['"'] + json_escape(t)
            + seq!['"'];
    let ghost t0 = w.0;
    let ghost end0 = w.1;
    let n = s.unicode_len();
    let mut out = String::new();
    let mut i: usize = pos + 1;
    proof {
        assert(s@.subrange(pos as int + 1, pos as int + 1) =~= json_escape(out@));
        if hyp {
            assert(t0.take(0) =~= Seq::<char>::empty());
        }
    }
    loop
        invariant
            pos + 1 <= i <= n,
            s@.subrange(pos as int + 1, i as int) == json_escape(out@),
            hyp ==> out@.len() <= t0.len() && out@ == t0.take(out@.len() as int),
        decreases n - i,
    {
        let ghost outv = out@;
        let ghost k = out@.len() as int;
        proof {
            if hyp {
                lemma_string_witness_at(s@, pos as int, t0, end0, out@, i as int);
                if k < t0.len() {
                    lemma_esc_char_shape(t0[k]);
                }
            }
        }
        if i >= n {
            proof {
                if hyp {
                    assert(i <= end0 - 1 && end0 <= n);
                }
            }
            return None;
        }
        let c = s.get_char(i);
        if c == '"' {
            proof {
                assert(s@.subrange(pos as int, i as int + 1) =~= seq!['"'] + json_escape(out@)
                    + seq!['"']);
            }
            return Some((out, i + 1));
        }
        if c == '\\' {
            proof {
                if hyp {
                    assert(k < t0.len());
                    assert(esc_char(t0[k]).len() >= 2);
                    assert(s@[i as int + 1] == esc_char(t0[k])[1]);
                }
            }
            if i + 1 >= n {
                proof {
                    if hyp {
                        assert(i + esc_char(t0[k]).len() <= end0 - 1 && end0 <= n);
                    }
                }
                return None;
            }
            let c2 = s.get_char(i + 1);
            if c2 == '"' || c2 == '\\' || c2 == 'b' || c2 == 't' || c2 == 'n' || c2 == 'f' || c2
                == 'r' {
                let ch = if c2 == '"' {
                    '"'
                } else if c2 == '\\' {
                    '\\'
                } else if c2 == 'b' {
                    '\u{08}'
                } else if c2 == 't' {
                    '\u{09}'
                } else if c2 == 'n' {
                    '\u{0a}'
                } else if c2 == 'f' {
                    '\u{0c}'
                } else {
                    '\u{0d}'
                };
                let ghost prev = out@;
                push_char(&mut out, ch);
                proof {
                    assert(out@.drop_last() =~= prev && out@.last() == ch);
                    assert(esc_char(ch) =~= seq!['\\', c2]);
                    assert(s@.subrange(pos as int + 1, i as int + 2) =~= s@.subrange(
                        pos as int + 1,
                        i as int,
                    ) + seq![s@[i as int], s@[i as int + 1]]);
                    assert(s@.subrange(pos as int + 1, i as int + 2) =~= json_escape(out@));
                    if hyp {
                        assert(esc_char(t0[k]).len() == 2);
                        assert(t0[k] == ch);
                        assert(t0.take(k + 1) =~= prev.push(t0[k]));
                    }
                }
                i = i + 2;
            } else if c2 == 'u' {
                proof {
                    if hyp {
                        assert(esc_char(t0[k]).len() == 6);
                        assert((t0[k] as int) < 0x20);
                        lemma_char_code_nonneg(t0[k]);
                        assert(s@[i as int + 2] == esc_char(t0[k])[2]);
                        assert(s@[i as int + 3] == esc_char(t0[k])[3]);
                        assert(s@[i as int + 4] == hex_digit((t0[k] as int) / 16));
                        assert(s@[i as int + 5] == hex_digit((t0[k] as int) % 16));
                        assert(esc_char(t0[k])[2] == '0' && esc_char(t0[k])[3] == '0');
                    }
                }
                if n - i < 6 {
                    proof {
                        if hyp {
                            assert(i + 6 <= end0 - 1 && end0 <= n);
                        }
                    }
                    return None;
                }
                if s.get_char(i + 2) != '0' || s.get_char(i + 3) != '0' {
                    return None;
                }
                let h1 = match hex_val(s.get_char(i + 4)) {
                    Some(d) => d,
                    None => {
                        proof {
                            if hyp {
                                assert(0 <= (t0[k] as int) / 16 < 16);
                                assert(s@[i as int + 4] != hex_digit((t0[k] as int) / 16));
                            }
                        }
                        return None;
                    },
                };
                let h2 = match hex_val(s.get_char(i + 5)) {
                    Some(d) => d,
                    None => {
                        proof {
                            if hyp {
                                assert(0 <= (t0[k] as int) % 16 < 16);
                                assert(s@[i as int + 5] != hex_digit((t0[k] as int) % 16));
                            }
                        }
                        return None;
                    },
                };
                let v: u8 = h1 * 16 + h2;
                proof {
                    if hyp {
                        lemma_hex_digit_injective(h1 as int, (t0[k] as int) / 16);
                        lemma_hex_digit_injective(h2 as int, (t0[k] as int) % 16);
                        assert(v as int == t0[k] as int);
                    }
                }
                if v >= 0x20 {
                    return None;
                }
                if v == 8 || v == 9 || v == 10 || v == 12 || v == 13 {
                    return None;
                }
                let ch = low_char(v);
                proof {
                    if hyp {
                        assert(ch == t0[k]);
                    }
                }
                let ghost prev = out@;
                push_char(&mut out, ch);
                proof {
                    assert((v as int) / 16 == h1 as int && (v as int) % 16 == h2 as int)
                        by (nonlinear_arith)
                        requires
                            v as int == (h1 as int) * 16 + (h2 as int),
                            0 <= h2 < 16,
                            0 <= h1 < 16,
                    ;
                    assert(ch != '"' && ch != '\\');
                    assert(ch != '\u{08}' && ch != '\u{09}' && ch != '\u{0a}' && ch != '\u{0c}'
                        && ch != '\u{0d}');
                    assert(esc_char(ch) =~= seq![
                        '\\',
                        'u',
                        '0',
                        '0',
                        hex_digit(h1 as int),
                        hex_digit(h2 as int),
                    ]);
                    assert(out@.drop_last() =~= prev && out@.last() == ch);
                    assert(s@.subrange(pos as int + 1, i as int + 6) =~= s@.subrange(
                        pos as int + 1,
                        i as int,
                    ) + seq![
                        s@[i as int],
                        s@[i as int + 1],
                        s@[i as int + 2],
                        s@[i as int + 3],
                        s@[i as int + 4],
                        s@[i as int + 5],
                    ]);
                    assert(s@.subrange(pos as int + 1, i as int + 6) =~= json_escape(out@));
                    if hyp {
                        assert(t0.take(k + 1) =~= prev.push(t0[k]));
                    }
                }
                i = i + 6;
            } else {
                proof {
                    if hyp {
                        assert(s@[i as int + 1] == esc_char(t0[k])[1]);
                    }
                }
                return None;
            }
        } else {
            proof {
                if hyp {
                    assert(k < t0.len());
                    assert(esc_char(t0[k]).len() == 1);
                    assert(t0[k] == c);
                }
            }
            if (c as u32) < 0x20 {
                return None;
            }
            let ghost prev = out@;
            push_char(&mut out, c);
            proof {
                assert(out@.drop_last() =~= prev && out@.last() == c);
                assert(esc_char(c) =~= seq![c]);
                assert(s@.subrange(pos as int + 1, i as int + 1) =~= s@.subrange(
                    pos as int + 1,
                    i as int,
                ) + seq![s@[i as int]]);
                assert(s@.subrange(pos as int + 1, i as int + 1) =~= json_escape(out@));
                if hyp {
                    assert(t0.take(k + 1) =~= prev.push(t0[k]));
                }
            }
            i = i + 1;
        }
    }
}

/// A consumed front part of a text, rejoined with what is left.
proof fn lemma_sub_to_skip(s: Seq<char>, a: int, b: int, t: Seq<char>)
    requires
        0 <= a <= b <= s.len(),
        s.subrange(a, b) == t,
    ensures
        t + s.skip(b) == s.skip(a),
{
    assert(t + s.skip(b) =~= s.skip(a)) by {
        assert forall|j: int| 0 <= j < s.len() - a implies #[trigger] s.skip(a)[j] == (t + s.skip(
            b,
        ))[j] by {
            if j < b - a {
                assert(s.skip(a)[j] == s[a + j]);
                assert(s.subrange(a, b)[j] == s[a + j]);
            } else {
                assert(s.skip(a)[j] == s[a + j]);
                assert(s.skip(b)[j - (b - a)] == s[a + j]);
            }
        }
    }
}

/// A consumed string literal, seen from just after its opening quote:
/// the escaped body, the closing quote, then what is left.
proof fn lemma_quoted_to_skip(s: Seq<char>, a: int, b: int, t: Seq<char>)
    requires
        0 <= a < b <= s.len(),
        s.subrange(a, b) == seq!['"'] + json_escape(t) + seq!['"'],
    ensures
        json_escape(t) + seq!['"'] + s.skip(b) == s.skip(a + 1),
{
    let q = json_escape(t) + seq!['"'];
    assert(s.subrange(a, b).len() == b - a);
    assert((seq!['"'] + json_escape(t) + seq!['"']).len() == q.len() + 1);
    assert(b - a == q.len() + 1);
    assert(q + s.skip(b) =~= s.skip(a + 1)) by {
        assert forall|j: int| 0 <= j < s.len() - (a + 1) implies #[trigger] s.skip(a + 1)[j] == (q
            + s.skip(b))[j] by {
            if j < q.len() {
                assert(s.skip(a + 1)[j] == s[a + 1 + j]);
                assert(s.subrange(a, b)[j + 1] == s[a + 1 + j]);
                assert(s.subrange(a, b)[j + 1] == q[j]);
            } else {
                assert(s.skip(a + 1)[j] == s[a + 1 + j]);
                assert(s.skip(b)[j - q.len()] == s[a + 1 + j]);
            }
        }
    }
    assert(json_escape(t) + seq!['"'] + s.skip(b) =~= q + s.skip(b));
}

/// An array body cut after its first `k` elements: the front part, a
/// comma, the rest.
proof fn lemma_json_arr_split(es: Seq<SpecValue>, k: int)
    requires
        1 <= k < es.len(),
    ensures
        json_of_arr(es) == json_of_arr(es.take(k)) + seq![','] + json_of_arr(es.skip(k)),
    decreases es.len() - k,
{
    if k == es.len() - 1 {
        assert(es.take(k) =~= es.drop_last());
        assert(es.skip(k) =~= seq![es.last()]);
        assert(json_of_arr(seq![es.last()]) == json_of(es.last()));
    } else {
        lemma_json_arr_split(es.drop_last(), k);
        assert(es.drop_last().take(k) =~= es.take(k));
        assert(es.drop_last().skip(k) =~= es.skip(k).drop_last());
        assert(es.skip(k).len() >= 2);
        assert(es.skip(k).last() == es.last());
        assert(json_of_arr(es.skip(k)) == json_of_arr(es.skip(k).drop_last()) + seq![',']
            + json_of(es.skip(k).last()));
        assert(json_of_arr(es) =~= json_of_arr(es.take(k)) + seq![','] + json_of_arr(es.skip(k)));
    }
}

/// A mapping body cut after its first `k` fields: the front part, a
/// comma, the rest.
proof fn lemma_json_obj_split(fs: Seq<(Seq<char>, SpecValue)>, k: int)
    requires
        1 <= k < fs.len(),
    ensures
        json_of_obj(fs) == json_of_obj(fs.take(k)) + seq![','] + json_of_obj(fs.skip(k)),
    decreases fs.len() - k,
{
    if k == fs.len() - 1 {
        assert(fs.take(k) =~= fs.drop_last());
        assert(fs.skip(k) =~= seq![fs.last()]);
        assert(json_of_obj(seq![fs.last()]) == json_of_field(fs.last()));
    } else {
        lemma_json_obj_split(fs.drop_last(), k);
        assert(fs.drop_last().take(k) =~= fs.take(k));
        assert(fs.drop_last().skip(k) =~= fs.skip(k).drop_last());
        assert(fs.skip(k).len() >= 2);
        assert(fs.skip(k).last() == fs.last());
        assert(json_of_obj(fs.skip(k)) == json_of_obj(fs.skip(k).drop_last()) + seq![',']
            + json_of_field(fs.skip(k).last()));
        assert(json_of_obj(fs) =~= json_of_obj(fs.take(k)) + seq![','] + json_of_obj(fs.skip(k)));
    }
}

/// Where the scan of a rendered array stands after `k` elements: the
/// next element's rendering sits at position `i`, followed by a comma
/// or the closing bracket.
#[verifier::rlimit(100)]
proof fn lemma_arr_witness_at(
    s: Seq<char>,
    pos: int,
    es0: Seq<SpecValue>,
    end0: int,
    k: int,
    i: int,
)
    requires
        0 <= pos < end0 <= s.len(),
        pos + 1 <= i <= s.len(),
        s.subrange(pos, end0) == seq!['['] + json_of_arr(es0) + seq![']'],
        0 <= k < es0.len(),
        k == 0 ==> i == pos + 1,
        k > 0 ==> s.subrange(pos + 1, i) == json_of_arr(es0.take(k)) + seq![','],
    ensures
        i + json_of(es0[k]).len() <= end0 - 1,
        s.subrange(i, i + json_of(es0[k]).len() as int) == json_of(es0[k]),
        k == es0.len() - 1 ==> i + json_of(es0[k]).len() == end0 - 1 && s[i + json_of(
            es0[k],
        ).len() as int] == ']',
        k < es0.len() - 1 ==> s[i + json_of(es0[k]).len() as int] == ',',
        end0 - 1 < s.len() ==> s[end0 - 1] == ']',
{
    let body = json_of_arr(es0);
    assert(s.subrange(pos, end0).len() == end0 - pos);
    assert forall|j: int| pos + 1 <= j < end0 - 1 implies #[trigger] s[j] == body[j - (pos
        + 1)] by {
        assert(s.subrange(pos, end0)[j - pos] == s[j]);
        assert((seq!['['] + body + seq![']'])[j - pos] == body[j - pos - 1]);
    }
    assert(s.subrange(pos + 1, end0 - 1) =~= body);
    assert(s.subrange(pos, end0)[end0 - 1 - pos] == s[end0 - 1]);
    assert(s[end0 - 1] == (seq!['['] + body + seq![']'])[end0 - 1 - pos]);
    let off = i - (pos + 1);
    let tail = es0.skip(k);
    if k == 0 {
        assert(tail =~= es0);
    } else {
        lemma_json_arr_split(es0, k);
        assert(off == json_of_arr(es0.take(k)).len() + 1);
    }
    assert(0 <= off && off + json_of_arr(tail).len() == body.len());
    assert(forall|j: int| 0 <= j < json_of_arr(tail).len() ==> body[off + j] == json_of_arr(
        tail,
    )[j]);
    assert(tail[0] == es0[k]);
    let le = json_of(es0[k]).len() as int;
    if tail.len() == 1 {
        assert(json_of_arr(tail) == json_of(es0[k]));
    } else {
        lemma_json_arr_front(tail);
        assert(tail.drop_first() =~= es0.skip(k + 1));
        assert(json_of_arr(tail) == json_of(es0[k]) + seq![','] + json_of_arr(es0.skip(k + 1)));
    }
    assert(forall|j: int| 0 <= j < le ==> json_of_arr(tail)[j] == json_of(es0[k])[j]);
    assert forall|j: int| i <= j < i + le implies #[trigger] s[j] == json_of(es0[k])[j - i] by {
        assert(s[j] == s.subrange(pos + 1, end0 - 1)[j - (pos + 1)]);
        assert(body[off + (j - i)] == json_of_arr(tail)[j - i]);
        assert(json_of_arr(tail)[j - i] == json_of(es0[k])[j - i]);
    }
    assert(s.subrange(i, i + le) =~= json_of(es0[k]));
    if k == es0.len() - 1 {
        assert(tail.len() == 1);
        assert(i + le == end0 - 1);
    } else {
        assert(tail.len() >= 2);
        assert(json_of_arr(tail)[le] == ',');
        assert(s[i + le] == s.subrange(pos + 1, end0 - 1)[off + le]);
    }
}

/// Where the scan of a rendered mapping stands after `k` fields: the
/// next field's quoted key, colon and value sit at position `i`,
/// followed by a comma or the closing brace.
#[verifier::rlimit(100)]
proof fn lemma_obj_witness_at(
    s: Seq<char>,
    pos: int,
    fs0: Seq<(Seq<char>, SpecValue)>,
    end0: int,
    k: int,
    i: int,
)
    requires
        0 <= pos < end0 <= s.len(),
        pos + 1 <= i <= s.len(),
        s.subrange(pos, end0) == seq!['{'] + json_of_obj(fs0) + seq!['}'],
        0 <= k < fs0.len(),
        k == 0 ==> i == pos + 1,
        k > 0 ==> s.subrange(pos + 1, i) == json_of_obj(fs0.take(k)) + seq![','],
    ensures
        ({
            let lk = 2 + json_escape(fs0[k].0).len() as int;
            let lv = json_of(fs0[k].1).len() as int;
            &&& i + lk + 1 + lv <= end0 - 1
            &&& s.subrange(i, i + lk) == seq!['"'] + json_escape(fs0[k].0) + seq!['"']
            &&& s[i + lk] == ':'
            &&& s.subrange(i + lk + 1, i + lk + 1 + lv) == json_of(fs0[k].1)
            &&& (k == fs0.len() - 1 ==> i + lk + 1 + lv == end0 - 1 && s[i + lk + 1 + lv] == '}')
            &&& (k < fs0.len() - 1 ==> s[i + lk + 1 + lv] == ',')
        }),
{
    let body = json_of_obj(fs0);
    assert(s.subrange(pos, end0).len() == end0 - pos);
    assert forall|j: int| pos + 1 <= j < end0 - 1 implies #[trigger] s[j] == body[j - (pos
        + 1)] by {
        assert(s.subrange(pos, end0)[j - pos] == s[j]);
        assert((seq!['{'] + body + seq!['}'])[j - pos] == body[j - pos - 1]);
    }
    assert(s.subrange(pos + 1, end0 - 1) =~= body);
    assert(s.subrange(pos, end0)[end0 - 1 - pos] == s[end0 - 1]);
    assert(s[end0 - 1] == (seq!['{'] + body + seq!['}'])[end0 - 1 - pos]);
    let off = i - (pos + 1);
    let tail = fs0.skip(k);
    if k == 0 {
        assert(tail =~= fs0);
    } else {
        lemma_json_obj_split(fs0, k);
        assert(off == json_of_obj(fs0.take(k)).len() + 1);
    }
    assert(0 <= off && off + json_of_obj(tail).len() == body.len());
    assert(forall|j: int| 0 <= j < json_of_obj(tail).len() ==> body[off + j] == json_of_obj(
        tail,
    )[j]);
    assert(tail[0] == fs0[k]);
    let fr = json_of_field(fs0[k]);
    let lf = fr.len() as int;
    if tail.len() == 1 {
        assert(json_of_obj(tail) == fr);
    } else {
        lemma_json_obj_front(tail);
        assert(tail.drop_first() =~= fs0.skip(k + 1));
        assert(json_of_obj(tail) == fr + seq![','] + json_of_obj(fs0.skip(k + 1)));
    }
    assert(forall|j: int| 0 <= j < lf ==> json_of_obj(tail)[j] == fr[j]);
    assert forall|j: int| i <= j < i + lf implies #[trigger] s[j] == fr[j - i] by {
        assert(s[j] == s.subrange(pos + 1, end0 - 1)[j - (pos + 1)]);
        assert(body[off + (j - i)] == json_of_obj(tail)[j - i]);
        assert(json_of_obj(tail)[j - i] == fr[j - i]);
    }
    assert(s.subrange(i, i + lf) =~= fr);
    let lk = 2 + json_escape(fs0[k].0).len() as int;
    let lv = json_of(fs0[k].1).len() as int;
    assert(fr == seq!['"'] + json_escape(fs0[k].0) + seq!['"', ':'] + json_of(fs0[k].1));
    assert(lf == lk + 1 + lv);
    assert(s.subrange(i, i + lk) =~= seq!['"'] + json_escape(fs0[k].0) + seq!['"']) by {
        assert(forall|j: int| 0 <= j < lk - 1 ==> fr[j] == (seq!['"'] + json_escape(fs0[k].0))[j]);
        assert(fr[lk - 1] == '"');
    }
    assert(s[i + lk] == fr[lk]);
    assert(fr[lk] == ':');
    assert(s.subrange(i + lk + 1, i + lk + 1 + lv) =~= json_of(fs0[k].1)) by {
        assert(forall|j: int| 0 <= j < lv ==> fr[lk + 1 + j] == json_of(fs0[k].1)[j]);
    }
    if k == fs0.len() - 1 {
        assert(tail.len() == 1);
        assert(i + lf == end0 - 1);
    } else {
        assert(tail.len() >= 2);
        assert(json_of_obj(tail)[lf] == ',');
        assert(s[i + lf] == s.subrange(pos + 1, end0 - 1)[off + lf]);
    }
}

/// Reads one canonical value starting at `pos`.  On success the consumed
/// text is exactly the canonical rendering of the returned value, which
/// is well-formed, and a returned number is never followed by a digit;
/// and it succeeds whenever the text ahead is the canonical rendering of
/// a well-formed value whose end the following text cannot blur.
#[verifier::loop_isolation(false)]
#[verifier::rlimit(100)]
pub fn parse_value(s: &str, pos: usize) -> (r: Option<(Value, usize)>)
    requires
        pos <= s@.len(),
    ensures
        r matches Some((v, end)) ==> pos < end <= s@.len() && wf(v@) && s@.subrange(
            pos as int,
            end as int,
        ) == json_of(v@) && (v@ is Int ==> end == s@.len() || !is_digit(s@[end as int])),
        (exists|v: SpecValue, end: int|
            pos < end <= s@.len() && wf(v) && s@.subrange(pos as int, end) == json_of(v)
                && follower_ok(s@.skip(end))) ==> r is Some,
    decreases s@.len() - pos, 1int,
{
    let ghost hyp = exists|v: SpecValue, end: int|
        pos < end <= s@.len() && wf(v) && s@.subrange(pos as int, end) == json_of(v)
            && follower_ok(s@.skip(end));
    let ghost w = choose|v: SpecValue, end: int|
        pos < end <= s@.len() && wf(v) && s@.subrange(pos as int, end) == json_of(v)
            && follower_ok(s@.skip(end));
    let ghost v0 = w.0;
    let ghost end0 = w.1;
    proof {
        if hyp {
            lemma_json_first_char(v0);
            assert(s@[pos as int] == json_of(v0)[0]);
        }
    }
    let n = s.unicode_len();
    if pos >= n {
        return None;
    }
    let c = s.get_char(pos);
    if c == 'n' {
        proof {
            if hyp {
                assert(v0 is Null);
                assert(end0 == pos + 4);
                assert(forall|j: int|
                    0 <= j < 4 ==> s@[pos + j] == json_of(v0)[j]);
            }
        }
        if n - pos < 4 || s.get_char(pos + 1) != 'u' || s.get_char(pos + 2) != 'l' || s.get_char(
            pos + 3,
        ) != 'l' {
            return None;
        }
        proof {
            assert(s@.subrange(pos as int, pos as int + 4) =~= seq!['n', 'u', 'l', 'l']);
        }
        Some((Value::Null, pos + 4))
    } else if c == 't' {
        proof {
            if hyp {
                assert(v0 is Bool && v0->Bool_0 == true);
                assert(end0 == pos + 4);
                assert(forall|j: int|
                    0 <= j < 4 ==> s@[pos + j] == json_of(v0)[j]);
            }
        }
        if n - pos < 4 || s.get_char(pos + 1) != 'r' || s.get_char(pos + 2) != 'u' || s.get_char(
            pos + 3,
        ) != 'e' {
            return None;
        }
        proof {
            assert(s@.subrange(pos as int, pos as int + 4) =~= seq!['t', 'r', 'u', 'e']);
        }
        Some((Value::Bool(true), pos + 4))
    } else if c == 'f' {
        proof {
            if hyp {
                assert(v0 is Bool && v0->Bool_0 == false);
                assert(end0 == pos + 5);
                assert(forall|j: int|
                    0 <= j < 5 ==> s@[pos + j] == json_of(v0)[j]);
            }
        }
        if n - pos < 5 || s.get_char(pos + 1) != 'a' || s.get_char(pos + 2) != 'l' || s.get_char(
            pos + 3,
        ) != 's' || s.get_char(pos + 4) != 'e' {
            return None;
        }
        proof {
            assert(s@.subrange(pos as int, pos as int + 5) =~= seq!['f', 'a', 'l', 's', 'e']);
        }
        Some((Value::Bool(false), pos + 5))
    } else if c == '"' {
        proof {
            if hyp {
                assert(v0 is Str);
                assert(s@.subrange(pos as int, end0) == seq!['"'] + json_escape(v0->Str_0)
                    + seq!['"']);
            }
        }
        match parse_string(s, pos) {
            Some((t, end)) => Some((Value::Str(t), end)),
            None => None,
        }
    } else if c == '[' {
        parse_array(s, pos)
    } else if c == '{' {
        parse_object(s, pos)
    } else if c == '-' || (c as u32) >= 48 && (c as u32) <= 57 {
        proof {
            if hyp {
                assert(v0 is Int);
                let nm = v0->Int_0;
                let mm = nm as i64;
                assert(mm as int == nm);
                assert(s@.subrange(pos as int, end0) == int_rep(mm as int));
                assert(end0 == s@.len() || !is_digit(s@[end0])) by {
                    if end0 < s@.len() {
                        assert(s@.skip(end0)[0] == s@[end0]);
                    }
                }
            }
        }
        match parse_int(s, pos) {
            Some((m, end)) => Some((Value::Int(m), end)),
            None => None,
        }
    } else {
        None
    }
}


/// Reads one canonical array starting at the opening bracket, under
/// the same contract as `parse_value`.
#[verifier::loop_isolation(false)]
#[verifier::rlimit(100)]
fn parse_array(s: &str, pos: usize) -> (r: Option<(Value, usize)>)
    requires
        pos < s@.len(),
        s@[pos as int] == '[',
    ensures
        r matches Some((v, end)) ==> pos < end <= s@.len() && wf(v@) && s@.subrange(
            pos as int,
            end as int,
        ) == json_of(v@) && (v@ is Int ==> end == s@.len() || !is_digit(s@[end as int])),
        (exists|v: SpecValue, end: int|
            pos < end <= s@.len() && wf(v) && s@.subrange(pos as int, end) == json_of(v)
                && follower_ok(s@.skip(end))) ==> r is Some,
    decreases s@.len() - pos, 0int,
{
    let ghost hyp = exists|v: SpecValue, end: int|
        pos < end <= s@.len() && wf(v) && s@.subrange(pos as int, end) == json_of(v)
            && follower_ok(s@.skip(end));
    let ghost w = choose|v: SpecValue, end: int|
        pos < end <= s@.len() && wf(v) && s@.subrange(pos as int, end) == json_of(v)
            && follower_ok(s@.skip(end));
    let ghost v0 = w.0;
    let ghost end0 = w.1;
    proof {
        if hyp {
            lemma_json_first_char(v0);
            assert(s@[pos as int] == json_of(v0)[0]);
        }
    }
    let n = s.unicode_len();
        let ghost es0 = v0->Arr_0;
        proof {
            if hyp {
                assert(v0 is Arr);
                assert(s@.subrange(pos as int, end0) == seq!['['] + json_of_arr(es0) + seq![']']);
                assert(es0.take(0) =~= Seq::<SpecValue>::empty());
            }
        }
        let mut items: Vec<Value> = Vec::new();
        let mut i: usize = pos + 1;
        if i < n && s.get_char(i) == ']' {
            proof {
                assert(arr_view(items@) =~= Seq::<SpecValue>::empty());
                assert(s@.subrange(pos as int, i as int + 1) =~= seq!['[', ']']);
                assert(json_of(SpecValue::Arr(Seq::empty())) =~= seq!['[', ']']);
            }
            return Some((Value::Arr(items), i + 1));
        }
        proof {
            assert(arr_view(items@) =~= Seq::<SpecValue>::empty());
            if hyp {
                assert(es0.len() > 0) by {
                    if es0.len() == 0 {
                        assert(json_of_arr(es0) == Seq::<char>::empty());
                        assert(end0 == pos + 2);
                        assert(s@[pos as int + 1] == s@.subrange(pos as int, end0)[1]);
                    }
                }
            }
        }
        loop
            invariant
                pos + 1 <= i <= n,
                wf_arr(arr_view(items@)),
                items@.len() == 0 ==> i == pos + 1,
                items@.len() > 0 ==> s@.subrange(pos as int + 1, i as int) == json_of_arr(
                    arr_view(items@),
                ) + seq![','],
                hyp ==> v0 is Arr && es0.len() > 0 && items@.len() < es0.len() && arr_view(items@)
                    == es0.take(items@.len() as int) && s@.subrange(pos as int, end0) == seq!['[']
                    + json_of_arr(es0) + seq![']'] && pos < end0 <= s@.len(),
            decreases n - i,
        {
            let ghost k = items@.len() as int;
            proof {
                if hyp {
                    lemma_arr_witness_at(s@, pos as int, es0, end0, k, i as int);
                    lemma_wf_arr(es0);
                    let le = json_of(es0[k]).len() as int;
                    assert(follower_ok(s@.skip(i + le))) by {
                        assert(s@.skip(i + le)[0] == s@[i + le]);
                    }
                    assert(i < i + le <= s@.len() && wf(es0[k]) && s@.subrange(i as int, i + le)
                        == json_of(es0[k]) && follower_ok(s@.skip(i + le)));
                }
            }
            let (v, i2) = match parse_value(s, i) {
                Some(p) => p,
                None => {
                    return None;
                },
            };
            let ghost prev = arr_view(items@);
            let ghost old_items = items@;
            proof {
                lemma_wf_arr(prev);
                lemma_arr_view(old_items);
            }
            items.push(v);
            proof {
                lemma_arr_view(items@);
                assert(arr_view(items@) =~= prev.push(v@)) by {
                    assert(forall|j: int|
                        0 <= j < old_items.len() ==> #[trigger] items@[j] == old_items[j]);
                }
                let es = arr_view(items@);
                assert(es.drop_last() =~= prev && es.last() == v@);
                lemma_wf_arr(es);
                if prev.len() == 0 {
                    assert(json_of_arr(es) == json_of(v@));
                } else {
                    assert(json_of_arr(es) == json_of_arr(prev) + seq![','] + json_of(v@));
                }
                assert(s@.subrange(pos as int + 1, i2 as int) =~= s@.subrange(
                    pos as int + 1,
                    i as int,
                ) + s@.subrange(i as int, i2 as int));
                if hyp {
                    let le = json_of(es0[k]).len() as int;
                    lemma_sub_to_skip(s@, i as int, i2 as int, json_of(v@));
                    lemma_sub_to_skip(s@, i as int, i + le, json_of(es0[k]));
                    assert(v@ is Int ==> follower_ok(s@.skip(i2 as int))) by {
                        if v@ is Int && i2 < n {
                            assert(s@.skip(i2 as int)[0] == s@[i2 as int]);
                        }
                        if v@ is Int && i2 == n {
                            assert(s@.skip(i2 as int).len() == 0);
                        }
                    }
                    lemma_value_unique(
                        v@,
                        es0[k],
                        s@.skip(i as int),
                        s@.skip(i2 as int),
                        s@.skip(i + le),
                    );
                    assert(v@ == es0[k]);
                    assert(i2 == i + le);
                    assert(arr_view(items@) =~= es0.take(k + 1));
                }
            }
            if i2 >= n {
                proof {
                    if hyp {
                        assert(i2 <= end0 - 1 && end0 <= n);
                    }
                }
                return None;
            }
            let sep = s.get_char(i2);
            if sep == ']' {
                proof {
                    assert(s@.subrange(pos as int, i2 as int + 1) =~= seq!['['] + s@.subrange(
                        pos as int + 1,
                        i2 as int,
                    ) + seq![']']);
                }
                return Some((Value::Arr(items), i2 + 1));
            }
            if sep != ',' {
                proof {
                    if hyp {
                        assert(sep == ',' || sep == ']');
                    }
                }
                return None;
            }
            proof {
                assert(s@.subrange(pos as int + 1, i2 as int + 1) =~= s@.subrange(
                    pos as int + 1,
                    i2 as int,
                ) + seq![s@[i2 as int]]);
                if hyp {
                    assert(k < es0.len() - 1) by {
                        if k == es0.len() - 1 {
                            assert(s@[i2 as int] == ']');
                        }
                    }
                }
            }
            i = i2 + 1;
        }
}


/// Reads one canonical mapping starting at the opening brace, under
/// the same contract as `parse_value`.
#[verifier::loop_isolation(false)]
#[verifier::rlimit(100)]
fn parse_object(s: &str, pos: usize) -> (r: Option<(Value, usize)>)
    requires
        pos < s@.len(),
        s@[pos as int] == '{',
    ensures
        r matches Some((v, end)) ==> pos < end <= s@.len() && wf(v@) && s@.subrange(
            pos as int,
            end as int,
        ) == json_of(v@) && (v@ is Int ==> end == s@.len() || !is_digit(s@[end as int])),
        (exists|v: SpecValue, end: int|
            pos < end <= s@.len() && wf(v) && s@.subrange(pos as int, end) == json_of(v)
                && follower_ok(s@.skip(end))) ==> r is Some,
    decreases s@.len() - pos, 0int,
{
    let ghost hyp = exists|v: SpecValue, end: int|
        pos < end <= s@.len() && wf(v) && s@.subrange(pos as int, end) == json_of(v)
            && follower_ok(s@.skip(end));
    let ghost w = choose|v: SpecValue, end: int|
        pos < end <= s@.len() && wf(v) && s@.subrange(pos as int, end) == json_of(v)
            && follower_ok(s@.skip(end));
    let ghost v0 = w.0;
    let ghost end0 = w.1;
    proof {
        if hyp {
            lemma_json_first_char(v0);
            assert(s@[pos as int] == json_of(v0)[0]);
        }
    }
    let n = s.unicode_len();
        let ghost fs0 = v0->Obj_0;
        proof {
            if hyp {
                assert(v0 is Obj);
                assert(s@.subrange(pos as int, end0) == seq!['{'] + json_of_obj(fs0) + seq!['}']);
                assert(fs0.take(0) =~= Seq::<(Seq<char>, SpecValue)>::empty());
            }
        }
        let mut fields: Vec<(String, Value)> = Vec::new();
        let mut i: usize = pos + 1;
        if i < n && s.get_char(i) == '}' {
            proof {
                assert(obj_view(fields@) =~= Seq::<(Seq<char>, SpecValue)>::empty());
                assert(s@.subrange(pos as int, i as int + 1) =~= seq!['{', '}']);
                assert(json_of(SpecValue::Obj(Seq::empty())) =~= seq!['{', '}']);
            }
            return Some((Value::Obj(fields), i + 1));
        }
        proof {
            assert(obj_view(fields@) =~= Seq::<(Seq<char>, SpecValue)>::empty());
            if hyp {
                assert(fs0.len() > 0) by {
                    if fs0.len() == 0 {
                        assert(json_of_obj(fs0) == Seq::<char>::empty());
                        assert(end0 == pos + 2);
                        assert(s@[pos as int + 1] == s@.subrange(pos as int, end0)[1]);
                    }
                }
            }
        }
        loop
            invariant
                pos + 1 <= i <= n,
                wf_fields(obj_view(fields@)),
                obj_keys_sorted(obj_view(fields@)),
                fields@.len() == 0 ==> i == pos + 1,
                fields@.len() > 0 ==> s@.subrange(pos as int + 1, i as int) == json_of_obj(
                    obj_view(fields@),
                ) + seq![','],
                hyp ==> v0 is Obj && fs0.len() > 0 && fields@.len() < fs0.len() && obj_view(
                    fields@,
                ) == fs0.take(fields@.len() as int) && s@.subrange(pos as int, end0) == seq!['{']
                    + json_of_obj(fs0) + seq!['}'] && pos < end0 <= s@.len() && obj_keys_sorted(
                    fs0,
                ) && wf_fields(fs0),
            decreases n - i,
        {
            let ghost k = fields@.len() as int;
            let ghost lk = 2 + json_escape(fs0[k].0).len() as int;
            let ghost lv = json_of(fs0[k].1).len() as int;
            proof {
                if hyp {
                    lemma_obj_witness_at(s@, pos as int, fs0, end0, k, i as int);
                    lemma_wf_fields(fs0);
                    assert(s@[i as int] == s@.subrange(i as int, i + lk)[0]);
                    assert(s@[i as int] == '"');
                    assert(i + lk + 1 + lv <= end0 - 1 && end0 <= n);
                }
            }
            if i >= n || s.get_char(i) != '"' {
                return None;
            }
            let (key, ik) = match parse_string(s, i) {
                Some(p) => p,
                None => {
                    return None;
                },
            };
            proof {
                if hyp {
                    lemma_quoted_to_skip(s@, i as int, ik as int, key@);
                    lemma_quoted_to_skip(s@, i as int, i + lk, fs0[k].0);
                    lemma_escape_body_unique(
                        key@,
                        fs0[k].0,
                        s@.skip(i as int + 1),
                        s@.skip(ik as int),
                        s@.skip(i + lk),
                    );
                    assert(key@ == fs0[k].0);
                    assert(ik == i + lk);
                    if k > 0 {
                        lemma_obj_view(fields@);
                        assert(obj_view(fields@)[k - 1] == fs0[k - 1]);
                        assert(lex_lt(fs0[k - 1].0, fs0[k].0));
                    }
                }
            }
            if fields.len() > 0 && !str_lt(fields[fields.len() - 1].0.as_str(), key.as_str()) {
                return None;
            }
            if ik >= n || s.get_char(ik) != ':' {
                return None;
            }
            proof {
                if hyp {
                    lemma_json_first_char(fs0[k].1);
                    assert(follower_ok(s@.skip(i + lk + 1 + lv))) by {
                        assert(s@.skip(i + lk + 1 + lv)[0] == s@[i + lk + 1 + lv]);
                    }
                    assert(ik + 1 < i + lk + 1 + lv <= s@.len() && wf(fs0[k].1) && s@.subrange(
                        ik as int + 1,
                        i + lk + 1 + lv,
                    ) == json_of(fs0[k].1) && follower_ok(s@.skip(i + lk + 1 + lv)));
                }
            }
            let (v, i2) = match parse_value(s, ik + 1) {
                Some(p) => p,
                None => {
                    return None;
                },
            };
            let ghost prev = obj_view(fields@);
            let ghost old_fields = fields@;
            let ghost keyv = key@;
            proof {
                lemma_wf_fields(prev);
                lemma_obj_view(old_fields);
            }
            fields.push((key, v));
            proof {
                lemma_obj_view(fields@);
                assert(forall|j: int|
                    0 <= j < old_fields.len() ==> #[trigger] fields@[j] == old_fields[j]);
                let fs = obj_view(fields@);
                assert(fs.drop_last() =~= prev && fs.last() == (keyv, v@));
                assert(forall|j: int| 0 <= j < prev.len() ==> #[trigger] fs[j] == prev[j]);
                assert(wf_fields(fs)) by {
                    lemma_wf_fields(fs);
                }
                assert(obj_keys_sorted(fs)) by {
                    assert(prev.len() > 0 ==> lex_lt(fs[prev.len() - 1].0, keyv));
                }
                assert(json_of_field(fs.last()) == seq!['"'] + json_escape(keyv) + seq!['"', ':']
                    + json_of(v@));
                if prev.len() == 0 {
                    assert(json_of_obj(fs) == json_of_field(fs[0]));
                } else {
                    assert(json_of_obj(fs) == json_of_obj(prev) + seq![','] + json_of_field(
                        fs.last(),
                    ));
                }
                assert(s@.subrange(i as int, i2 as int) =~= s@.subrange(i as int, ik as int)
                    + seq![s@[ik as int]] + s@.subrange(ik as int + 1, i2 as int));
                assert(s@.subrange(i as int, i2 as int) =~= json_of_field(fs.last()));
                assert(s@.subrange(pos as int + 1, i2 as int) =~= s@.subrange(
                    pos as int + 1,
                    i as int,
                ) + s@.subrange(i as int, i2 as int));
                assert(s@.subrange(pos as int + 1, i2 as int) =~= json_of_obj(fs));
                if hyp {
                    lemma_sub_to_skip(s@, ik as int + 1, i2 as int, json_of(v@));
                    lemma_sub_to_skip(s@, ik as int + 1, i + lk + 1 + lv, json_of(fs0[k].1));
                    assert(v@ is Int ==> follower_ok(s@.skip(i2 as int))) by {
                        if v@ is Int && i2 < n {
                            assert(s@.skip(i2 as int)[0] == s@[i2 as int]);
                        }
                        if v@ is Int && i2 == n {
                            assert(s@.skip(i2 as int).len() == 0);
                        }
                    }
                    lemma_value_unique(
                        v@,
                        fs0[k].1,
                        s@.skip(ik as int + 1),
                        s@.skip(i2 as int),
                        s@.skip(i + lk + 1 + lv),
                    );
                    assert(v@ == fs0[k].1);
                    assert(i2 == i + lk + 1 + lv);
                    assert(obj_view(fields@) =~= fs0.take(k + 1));
                }
            }
            if i2 >= n {
                proof {
                    if hyp {
                        assert(i2 <= end0 - 1 && end0 <= n);
                    }
                }
                return None;
            }
            let sep = s.get_char(i2);
            if sep == '}' {
                proof {
                    assert(s@.subrange(pos as int, i2 as int + 1) =~= seq!['{'] + s@.subrange(
                        pos as int + 1,
                        i2 as int,
                    ) + seq!['}']);
                }
                return Some((Value::Obj(fields), i2 + 1));
            }
            if sep != ',' {
                proof {
                    if hyp {
                        assert(sep == ',' || sep == '}');
                    }
                }
                return None;
            }
            proof {
                assert(s@.subrange(pos as int + 1, i2 as int + 1) =~= s@.subrange(
                    pos as int + 1,
                    i2 as int,
                ) + seq![s@[i2 as int]]);
                if hyp {
                    assert(k < fs0.len() - 1) by {
                        if k == fs0.len() - 1 {
                            assert(s@[i2 as int] == '}');
                        }
                    }
                }
            }
            i = i2 + 1;
        }
}

/// Reads an entity back from its canonical JSON text.  Succeeds exactly
/// on text that is the canonical rendering of a well-formed value, and
/// then returns exactly that value.
pub fn from_json(s: &str) -> (r: Option<Value>)
    ensures
        r matches Some(v) ==> wf(v@) && json_of(v@) == s@,
        (exists|v: SpecValue| wf(v) && json_of(v) == s@) ==> r is Some,
{
    let ghost hyp = exists|v: SpecValue| wf(v) && json_of(v) == s@;
    let ghost v0 = choose|v: SpecValue| wf(v) && json_of(v) == s@;
    let n = s.unicode_len();
    proof {
        if hyp {
            lemma_json_first_char(v0);
            assert(s@.subrange(0, n as int) =~= s@);
            assert(s@.skip(n as int) =~= Seq::<char>::empty());
            assert(0 < n as int <= s@.len() && wf(v0) && s@.subrange(0, n as int) == json_of(v0)
                && follower_ok(s@.skip(n as int)));
        }
    }
    match parse_value(s, 0) {
        Some((v, end)) => {
            if end == n {
                proof {
                    assert(s@.subrange(0, n as int) =~= s@);
                }
                Some(v)
            } else {
                proof {
                    if hyp {
                        lemma_sub_to_skip(s@, 0, end as int, json_of(v@));
                        assert(s@.skip(0) =~= s@);
                        assert(json_of(v0) + Seq::<char>::empty() =~= s@);
                        assert(v@ is Int ==> follower_ok(s@.skip(end as int))) by {
                            if v@ is Int && end < n {
                                assert(s@.skip(end as int)[0] == s@[end as int]);
                            }
                            if v@ is Int && end == n {
                                assert(s@.skip(end as int).len() == 0);
                            }
                        }
                        lemma_value_unique(
                            v@,
                            v0,
                            s@,
                            s@.skip(end as int),
                            Seq::<char>::empty(),
                        );
                        assert(end as int == json_of(v0).len());
                    }
                }
                None
            }
        },
        None => None,
    }
}

/// A decimal rendering is nonempty and all digits.
proof fn lemma_dec_rep_digits(n: nat)
    ensures
        dec_rep(n).len() >= 1,
        forall|i: int| 0 <= i < dec_rep(n).len() ==> is_digit(#[trigger] dec_rep(n)[i]),
    decreases n,
{
    if n < 10 {
        assert(is_digit(dec_digit(n as int)));
    } else {
        lemma_dec_rep_digits(n / 10);
        assert forall|i: int| 0 <= i < dec_rep(n).len() implies is_digit(
            #[trigger] dec_rep(n)[i],
        ) by {
            if i < dec_rep(n / 10).len() {
                assert(dec_rep(n)[i] == dec_rep(n / 10)[i]);
            } else {
                assert(dec_rep(n)[i] == dec_digit((n % 10) as int));
            }
        }
    }
}

/// Different numbers have different decimal renderings.
proof fn lemma_dec_rep_injective(a: nat, b: nat)
    requires
        dec_rep(a) == dec_rep(b),
    ensures
        a == b,
    decreases a,
{
    lemma_dec_rep_digits(a / 10);
    lemma_dec_rep_digits(b / 10);
    assert(dec_rep(a).last() == dec_digit((a % 10) as int));
    assert(dec_rep(b).last() == dec_digit((b % 10) as int));
    assert(a % 10 == b % 10);
    if a < 10 && b < 10 {
    } else if a >= 10 && b >= 10 {
        assert(dec_rep(a).drop_last() =~= dec_rep(a / 10));
        assert(dec_rep(b).drop_last() =~= dec_rep(b / 10));
        lemma_dec_rep_injective(a / 10, b / 10);
    } else {
        assert(dec_rep(a).len() == dec_rep(b).len());
        assert(false);
    }
}

/// Shape of a signed rendering: a sign only for negatives, digits for
/// the rest.
proof fn lemma_int_rep_shape(n: int)
    ensures
        int_rep(n).len() >= 1,
        n < 0 ==> int_rep(n)[0] == '-' && int_rep(n).len() >= 2,
        n >= 0 ==> is_digit(int_rep(n)[0]),
        forall|i: int|
            (if n < 0 {
                1int
            } else {
                0int
            }) <= i < int_rep(n).len() ==> is_digit(#[trigger] int_rep(n)[i]),
{
    if n < 0 {
        lemma_dec_rep_digits((-n) as nat);
        assert(forall|i: int|
            1 <= i < int_rep(n).len() ==> int_rep(n)[i] == dec_rep((-n) as nat)[i - 1]);
    } else {
        lemma_dec_rep_digits(n as nat);
    }
}

/// Different numbers have different signed renderings.
proof fn lemma_int_rep_injective(n1: int, n2: int)
    requires
        int_rep(n1) == int_rep(n2),
    ensures
        n1 == n2,
{
    lemma_int_rep_shape(n1);
    lemma_int_rep_shape(n2);
    assert((n1 < 0) == (n2 < 0));
    if n1 < 0 {
        assert(int_rep(n1).drop_first() =~= dec_rep((-n1) as nat));
        assert(int_rep(n2).drop_first() =~= dec_rep((-n2) as nat));
        lemma_dec_rep_injective((-n1) as nat, (-n2) as nat);
    } else {
        lemma_dec_rep_injective(n1 as nat, n2 as nat);
    }
}

/// A rendering is nonempty and its first character names the variant:
/// a letter for null and the booleans, a sign or digit for a number, a
/// quote, bracket or brace for the rest.
proof fn lemma_json_first_char(sv: SpecValue)
    ensures
        json_of(sv).len() >= 1,
        sv is Null ==> json_of(sv)[0] == 'n',
        sv is Bool ==> json_of(sv)[0] == 't' || json_of(sv)[0] == 'f',
        sv is Int ==> json_of(sv)[0] == '-' || is_digit(json_of(sv)[0]),
        sv is Str ==> json_of(sv)[0] == '"',
        sv is Arr ==> json_of(sv)[0] == '[',
        sv is Obj ==> json_of(sv)[0] == '{',
{
    match sv {
        SpecValue::Int(n) => {
            lemma_int_rep_shape(n);
        },
        _ => {},
    }
}

/// The escaped form taken from the front: the first character's escape,
/// then the rest.
proof fn lemma_escape_front(t: Seq<char>)
    requires
        t.len() > 0,
    ensures
        json_escape(t) == esc_char(t[0]) + json_escape(t.drop_first()),
    decreases t.len(),
{
    if t.len() == 1 {
        assert(t.drop_last() =~= Seq::<char>::empty());
        assert(t.drop_first() =~= Seq::<char>::empty());
        assert(json_escape(t) =~= esc_char(t[0]) + json_escape(t.drop_first()));
    } else {
        lemma_escape_front(t.drop_last());
        assert(t.drop_last()[0] == t[0]);
        assert(t.drop_last().drop_first() =~= t.drop_first().drop_last());
        assert(t.drop_first().last() == t.last());
        assert(t.drop_first().len() > 0);
        assert(json_escape(t.drop_first()) == json_escape(t.drop_first().drop_last()) + esc_char(
            t.drop_first().last(),
        ));
        assert(json_escape(t) =~= esc_char(t[0]) + json_escape(t.drop_first()));
    }
}

/// An array body taken from the front: the first element, a comma, the
/// rest.
proof fn lemma_json_arr_front(es: Seq<SpecValue>)
    requires
        es.len() >= 2,
    ensures
        json_of_arr(es) == json_of(es[0]) + seq![','] + json_of_arr(es.drop_first()),
    decreases es.len(),
{
    if es.len() == 2 {
        assert(es.drop_last() =~= seq![es[0]]);
        assert(es.drop_first() =~= seq![es[1]]);
        assert(json_of_arr(seq![es[0]]) == json_of(es[0]));
        assert(json_of_arr(seq![es[1]]) == json_of(es[1]));
        assert(json_of_arr(es) =~= json_of(es[0]) + seq![','] + json_of_arr(es.drop_first()));
    } else {
        lemma_json_arr_front(es.drop_last());
        assert(es.drop_last()[0] == es[0]);
        assert(es.drop_last().drop_first() =~= es.drop_first().drop_last());
        assert(es.drop_first().last() == es.last());
        assert(es.drop_first().len() >= 2);
        assert(json_of_arr(es.drop_first()) == json_of_arr(es.drop_first().drop_last())
            + seq![','] + json_of(es.drop_first().last()));
        assert(json_of_arr(es) =~= json_of(es[0]) + seq![','] + json_of_arr(es.drop_first()));
    }
}

/// A mapping body taken from the front: the first field, a comma, the
/// rest.
proof fn lemma_json_obj_front(fs: Seq<(Seq<char>, SpecValue)>)
    requires
        fs.len() >= 2,
    ensures
        json_of_obj(fs) == json_of_field(fs[0]) + seq![','] + json_of_obj(fs.drop_first()),
    decreases fs.len(),
{
    if fs.len() == 2 {
        assert(fs.drop_last() =~= seq![fs[0]]);
        assert(fs.drop_first() =~= seq![fs[1]]);
        assert(json_of_obj(seq![fs[0]]) == json_of_field(fs[0]));
        assert(json_of_obj(seq![fs[1]]) == json_of_field(fs[1]));
        assert(json_of_obj(fs) =~= json_of_field(fs[0]) + seq![','] + json_of_obj(
            fs.drop_first(),
        ));
    } else {
        lemma_json_obj_front(fs.drop_last());
        assert(fs.drop_last()[0] == fs[0]);
        assert(fs.drop_last().drop_first() =~= fs.drop_first().drop_last());
        assert(fs.drop_first().last() == fs.last());
        assert(fs.drop_first().len() >= 2);
        assert(json_of_obj(fs.drop_first()) == json_of_obj(fs.drop_first().drop_last())
            + seq![','] + json_of_field(fs.drop_first().last()));
        assert(json_of_obj(fs) =~= json_of_field(fs[0]) + seq![','] + json_of_obj(
            fs.drop_first(),
        ));
    }
}

/// What one character's escape looks like: one raw character, a
/// two-character backslash escape, or a six-character `\u00XX` escape.
proof fn lemma_esc_char_shape(c: char)
    ensures
        esc_char(c).len() == 1 || esc_char(c).len() == 2 || esc_char(c).len() == 6,
        esc_char(c).len() == 1 ==> esc_char(c)[0] == c && c != '"' && c != '\\' && c as int
            >= 0x20,
        esc_char(c).len() >= 2 ==> esc_char(c)[0] == '\\',
        esc_char(c).len() == 2 ==> (esc_char(c)[1] == '"' && c == '"') || (esc_char(c)[1] == '\\'
            && c == '\\') || (esc_char(c)[1] == 'b' && c == '\u{08}') || (esc_char(c)[1] == 't'
            && c == '\u{09}') || (esc_char(c)[1] == 'n' && c == '\u{0a}') || (esc_char(c)[1]
            == 'f' && c == '\u{0c}') || (esc_char(c)[1] == 'r' && c == '\u{0d}'),
        esc_char(c).len() == 6 ==> esc_char(c)[1] == 'u' && (c as int) < 0x20 && esc_char(c)[4]
            == hex_digit((c as int) / 16) && esc_char(c)[5] == hex_digit((c as int) % 16) && c
            != '\u{08}' && c != '\u{09}' && c != '\u{0a}' && c != '\u{0c}' && c != '\u{0d}',
{
}

/// A character's code point is never negative.
proof fn lemma_char_code_nonneg(c: char)
    ensures
        0 <= c as int,
{
}

/// The alphabet of hexadecimal digits has no repeats.
proof fn lemma_hex_digit_injective(d1: int, d2: int)
    requires
        0 <= d1 < 16,
        0 <= d2 < 16,
        hex_digit(d1) == hex_digit(d2),
    ensures
        d1 == d2,
{
}

/// Two escaped string bodies closed by a quote and read from the same
/// text are the same string.
proof fn lemma_escape_body_unique(
    t1: Seq<char>,
    t2: Seq<char>,
    w: Seq<char>,
    x: Seq<char>,
    y: Seq<char>,
)
    requires
        json_escape(t1) + seq!['"'] + x == w,
        json_escape(t2) + seq!['"'] + y == w,
    ensures
        t1 == t2,
    decreases t1.len(),
{
    if t1.len() == 0 || t2.len() == 0 {
        if t1.len() == 0 && t2.len() > 0 {
            assert(w[0] == '"');
            lemma_escape_front(t2);
            lemma_esc_char_shape(t2[0]);
            assert(w[0] == esc_char(t2[0])[0]);
            assert(false);
        }
        if t2.len() == 0 && t1.len() > 0 {
            assert(w[0] == '"');
            lemma_escape_front(t1);
            lemma_esc_char_shape(t1[0]);
            assert(w[0] == esc_char(t1[0])[0]);
            assert(false);
        }
        assert(t1 =~= t2);
    } else {
        lemma_escape_front(t1);
        lemma_escape_front(t2);
        lemma_esc_char_shape(t1[0]);
        lemma_esc_char_shape(t2[0]);
        let u1 = esc_char(t1[0]);
        let u2 = esc_char(t2[0]);
        assert(w == u1 + (json_escape(t1.drop_first()) + seq!['"'] + x));
        assert(w == u2 + (json_escape(t2.drop_first()) + seq!['"'] + y));
        assert(w[0] == u1[0] && w[0] == u2[0]);
        if w[0] != '\\' {
            assert(u1.len() == 1 && u2.len() == 1);
            assert(t1[0] == w[0] && t2[0] == w[0]);
            assert(json_escape(t1.drop_first()) + seq!['"'] + x =~= w.drop_first());
            assert(json_escape(t2.drop_first()) + seq!['"'] + y =~= w.drop_first());
            lemma_escape_body_unique(t1.drop_first(), t2.drop_first(), w.drop_first(), x, y);
            assert(t1 =~= seq![t1[0]] + t1.drop_first());
            assert(t2 =~= seq![t2[0]] + t2.drop_first());
        } else {
            assert(u1.len() >= 2 && u2.len() >= 2);
            assert(w[1] == u1[1] && w[1] == u2[1]);
            if w[1] == '"' || w[1] == '\\' || w[1] == 'b' || w[1] == 't' || w[1] == 'n' || w[1]
                == 'f' || w[1] == 'r' {
                assert(u1.len() == 2 && u2.len() == 2);
                assert(t1[0] == t2[0]);
                assert(json_escape(t1.drop_first()) + seq!['"'] + x =~= w.skip(2));
                assert(json_escape(t2.drop_first()) + seq!['"'] + y =~= w.skip(2));
                lemma_escape_body_unique(t1.drop_first(), t2.drop_first(), w.skip(2), x, y);
                assert(t1 =~= seq![t1[0]] + t1.drop_first());
                assert(t2 =~= seq![t2[0]] + t2.drop_first());
            } else {
                assert(u1.len() == 6 && u2.len() == 6);
                assert(w[4] == hex_digit((t1[0] as int) / 16) && w[4] == hex_digit(
                    (t2[0] as int) / 16,
                ));
                assert(w[5] == hex_digit((t1[0] as int) % 16) && w[5] == hex_digit(
                    (t2[0] as int) % 16,
                ));
                let c1 = t1[0] as int;
                let c2 = t2[0] as int;
                lemma_char_code_nonneg(t1[0]);
                lemma_char_code_nonneg(t2[0]);
                assert(c1 < 0x20 && c2 < 0x20);
                assert(c1 >= 0 && c2 >= 0);
                lemma_hex_digit_injective(c1 / 16, c2 / 16);
                lemma_hex_digit_injective(c1 % 16, c2 % 16);
                assert(t1[0] as int == t2[0] as int);
                assert(t1[0] == t2[0]);
                assert(json_escape(t1.drop_first()) + seq!['"'] + x =~= w.skip(6));
                assert(json_escape(t2.drop_first()) + seq!['"'] + y =~= w.skip(6));
                lemma_escape_body_unique(t1.drop_first(), t2.drop_first(), w.skip(6), x, y);
                assert(t1 =~= seq![t1[0]] + t1.drop_first());
                assert(t2 =~= seq![t2[0]] + t2.drop_first());
            }
        }
    }
}

/// Whether text may follow a rendering without blurring its end: the
/// empty sequence, or anything not starting with a digit (a digit
/// could extend a number's rendering).
pub open spec fn follower_ok(r: Seq<char>) -> bool {
    r.len() == 0 || !is_digit(r[0])
}

/// The characters a rendering can start with.
spec fn is_value_start(c: char) -> bool {
    c == 'n' || c == 't' || c == 'f' || c == '-' || is_digit(c) || c == '"' || c == '[' || c
        == '{'
}

proof fn lemma_first_char_is_value_start(sv: SpecValue)
    ensures
        json_of(sv).len() >= 1,
        is_value_start(json_of(sv)[0]),
{
    lemma_json_first_char(sv);
}

/// Two renderings read from the front of the same text render the same
/// value; for numbers, whose end a following digit could blur, the
/// remainders must be digit-free.
proof fn lemma_value_unique(u: SpecValue, v: SpecValue, w: Seq<char>, x: Seq<char>, y: Seq<char>)
    requires
        json_of(u) + x == w,
        json_of(v) + y == w,
        u is Int ==> follower_ok(x),
        v is Int ==> follower_ok(y),
    ensures
        u == v,
    decreases u,
{
    lemma_json_first_char(u);
    lemma_json_first_char(v);
    assert(w[0] == json_of(u)[0] && w[0] == json_of(v)[0]);
    match u {
        SpecValue::Null => {
            assert(v is Null);
        },
        SpecValue::Bool(b) => {
            assert(v is Bool);
            if b != v->Bool_0 {
                assert(json_of(u)[0] != json_of(v)[0]);
            }
        },
        SpecValue::Int(n1) => {
            assert(v is Int);
            let n2 = v->Int_0;
            lemma_int_rep_shape(n1);
            lemma_int_rep_shape(n2);
            let l1 = int_rep(n1).len() as int;
            let l2 = int_rep(n2).len() as int;
            if l1 < l2 {
                assert(w.len() == l1 + x.len());
                assert(x.len() > 0);
                assert(x[0] == w[l1]);
                assert(w[l1] == int_rep(n2)[l1]);
                assert(is_digit(int_rep(n2)[l1]));
                assert(false);
            }
            if l2 < l1 {
                assert(w.len() == l2 + y.len());
                assert(y.len() > 0);
                assert(y[0] == w[l2]);
                assert(w[l2] == int_rep(n1)[l2]);
                assert(is_digit(int_rep(n1)[l2]));
                assert(false);
            }
            assert(json_of(u) == int_rep(n1) && json_of(v) == int_rep(n2));
            assert forall|i: int| 0 <= i < l1 implies int_rep(n1)[i] == int_rep(n2)[i] by {
                assert((json_of(u) + x)[i] == int_rep(n1)[i]);
                assert((json_of(v) + y)[i] == int_rep(n2)[i]);
            }
            assert(int_rep(n1) =~= int_rep(n2));
            lemma_int_rep_injective(n1, n2);
        },
        SpecValue::Str(t1) => {
            assert(v is Str);
            let t2 = v->Str_0;
            assert(json_escape(t1) + seq!['"'] + x =~= w.drop_first());
            assert(json_escape(t2) + seq!['"'] + y =~= w.drop_first());
            lemma_escape_body_unique(t1, t2, w.drop_first(), x, y);
        },
        SpecValue::Arr(es1) => {
            assert(v is Arr);
            let es2 = v->Arr_0;
            assert(json_of_arr(es1) + seq![']'] + x =~= w.drop_first());
            assert(json_of_arr(es2) + seq![']'] + y =~= w.drop_first());
            lemma_arr_items_unique(es1, es2, w.drop_first(), x, y);
        },
        SpecValue::Obj(fs1) => {
            assert(v is Obj);
            let fs2 = v->Obj_0;
            assert(json_of_obj(fs1) + seq!['}'] + x =~= w.drop_first());
            assert(json_of_obj(fs2) + seq!['}'] + y =~= w.drop_first());
            lemma_obj_fields_unique(fs1, fs2, w.drop_first(), x, y);
        },
    }
}

/// Two array bodies closed by a bracket and read from the same text
/// hold the same elements.
#[verifier::rlimit(100)]
proof fn lemma_arr_items_unique(
    es1: Seq<SpecValue>,
    es2: Seq<SpecValue>,
    w: Seq<char>,
    x: Seq<char>,
    y: Seq<char>,
)
    requires
        json_of_arr(es1) + seq![']'] + x == w,
        json_of_arr(es2) + seq![']'] + y == w,
    ensures
        es1 == es2,
    decreases es1,
{
    if es1.len() == 0 || es2.len() == 0 {
        if es1.len() == 0 && es2.len() > 0 {
            assert(w[0] == ']');
            if es2.len() >= 2 {
                lemma_json_arr_front(es2);
            }
            lemma_first_char_is_value_start(es2[0]);
            assert(w[0] == json_of(es2[0])[0]);
            assert(false);
        }
        if es2.len() == 0 && es1.len() > 0 {
            assert(w[0] == ']');
            if es1.len() >= 2 {
                lemma_json_arr_front(es1);
            }
            lemma_first_char_is_value_start(es1[0]);
            assert(w[0] == json_of(es1[0])[0]);
            assert(false);
        }
        assert(es1 =~= es2);
    } else {
        let tail1: Seq<char> = if es1.len() == 1 {
            seq![']'] + x
        } else {
            seq![','] + json_of_arr(es1.drop_first()) + seq![']'] + x
        };
        let tail2: Seq<char> = if es2.len() == 1 {
            seq![']'] + y
        } else {
            seq![','] + json_of_arr(es2.drop_first()) + seq![']'] + y
        };
        if es1.len() >= 2 {
            lemma_json_arr_front(es1);
        }
        if es2.len() >= 2 {
            lemma_json_arr_front(es2);
        }
        assert(json_of(es1[0]) + tail1 =~= w);
        assert(json_of(es2[0]) + tail2 =~= w);
        assert(follower_ok(tail1) && follower_ok(tail2));
        lemma_value_unique(es1[0], es2[0], w, tail1, tail2);
        lemma_json_first_char(es1[0]);
        assert(tail1 =~= tail2) by {
            let l = json_of(es1[0]).len() as int;
            assert(json_of(es2[0]).len() == l);
            assert(forall|i: int| 0 <= i < tail1.len() ==> tail1[i] == w[l + i]);
            assert(forall|i: int| 0 <= i < tail2.len() ==> tail2[i] == w[l + i]);
        }
        if es1.len() == 1 && es2.len() == 1 {
            assert(es1 =~= seq![es1[0]]);
            assert(es2 =~= seq![es2[0]]);
        } else if es1.len() == 1 {
            assert(tail1[0] == ']' && tail2[0] == ',');
            assert(false);
        } else if es2.len() == 1 {
            assert(tail1[0] == ',' && tail2[0] == ']');
            assert(false);
        } else {
            assert(json_of_arr(es1.drop_first()) + seq![']'] + x =~= tail1.drop_first());
            assert(json_of_arr(es2.drop_first()) + seq![']'] + y =~= tail2.drop_first());
            lemma_arr_items_unique(es1.drop_first(), es2.drop_first(), tail1.drop_first(), x, y);
            assert(es1 =~= seq![es1[0]] + es1.drop_first());
            assert(es2 =~= seq![es2[0]] + es2.drop_first());
        }
    }
}

/// Two mapping bodies closed by a brace and read from the same text
/// hold the same fields.
#[verifier::rlimit(100)]
proof fn lemma_obj_fields_unique(
    fs1: Seq<(Seq<char>, SpecValue)>,
    fs2: Seq<(Seq<char>, SpecValue)>,
    w: Seq<char>,
    x: Seq<char>,
    y: Seq<char>,
)
    requires
        json_of_obj(fs1) + seq!['}'] + x == w,
        json_of_obj(fs2) + seq!['}'] + y == w,
    ensures
        fs1 == fs2,
    decreases fs1,
{
    if fs1.len() == 0 || fs2.len() == 0 {
        if fs1.len() == 0 && fs2.len() > 0 {
            assert(w[0] == '}');
            if fs2.len() >= 2 {
                lemma_json_obj_front(fs2);
            }
            assert(w[0] == json_of_field(fs2[0])[0]);
            assert(false);
        }
        if fs2.len() == 0 && fs1.len() > 0 {
            assert(w[0] == '}');
            if fs1.len() >= 2 {
                lemma_json_obj_front(fs1);
            }
            assert(w[0] == json_of_field(fs1[0])[0]);
            assert(false);
        }
        assert(fs1 =~= fs2);
    } else {
        let (k1, v1) = fs1[0];
        let (k2, v2) = fs2[0];
        let tail1: Seq<char> = if fs1.len() == 1 {
            seq!['}'] + x
        } else {
            seq![','] + json_of_obj(fs1.drop_first()) + seq!['}'] + x
        };
        let tail2: Seq<char> = if fs2.len() == 1 {
            seq!['}'] + y
        } else {
            seq![','] + json_of_obj(fs2.drop_first()) + seq!['}'] + y
        };
        if fs1.len() >= 2 {
            lemma_json_obj_front(fs1);
        }
        if fs2.len() >= 2 {
            lemma_json_obj_front(fs2);
        }
        assert(json_of_field(fs1[0]) + tail1 =~= w);
        assert(json_of_field(fs2[0]) + tail2 =~= w);
        let after1 = seq![':'] + json_of(v1) + tail1;
        let after2 = seq![':'] + json_of(v2) + tail2;
        assert(json_escape(k1) + seq!['"'] + after1 =~= w.drop_first());
        assert(json_escape(k2) + seq!['"'] + after2 =~= w.drop_first());
        lemma_escape_body_unique(k1, k2, w.drop_first(), after1, after2);
        assert(k1 == k2);
        let p = 2 + json_escape(k1).len() as int;
        assert(json_escape(k2).len() == json_escape(k1).len());
        assert(json_of(v1) + tail1 =~= w.skip(p + 1)) by {
            assert(forall|i: int|
                0 <= i < json_of(v1).len() + tail1.len() ==> (json_of(v1) + tail1)[i] == w[p + 1
                    + i]);
        }
        assert(json_of(v2) + tail2 =~= w.skip(p + 1)) by {
            assert(forall|i: int|
                0 <= i < json_of(v2).len() + tail2.len() ==> (json_of(v2) + tail2)[i] == w[p + 1
                    + i]);
        }
        assert(follower_ok(tail1) && follower_ok(tail2));
        lemma_value_unique(v1, v2, w.skip(p + 1), tail1, tail2);
        lemma_json_first_char(v1);
        assert(tail1 =~= tail2) by {
            let l = json_of(v1).len() as int;
            assert(json_of(v2).len() == l);
            assert(forall|i: int| 0 <= i < tail1.len() ==> tail1[i] == w.skip(p + 1)[l + i]);
            assert(forall|i: int| 0 <= i < tail2.len() ==> tail2[i] == w.skip(p + 1)[l + i]);
        }
        assert(fs1[0] == fs2[0]);
        if fs1.len() == 1 && fs2.len() == 1 {
            assert(fs1 =~= seq![fs1[0]]);
            assert(fs2 =~= seq![fs2[0]]);
        } else if fs1.len() == 1 {
            assert(tail1[0] == '}' && tail2[0] == ',');
            assert(false);
        } else if fs2.len() == 1 {
            assert(tail1[0] == ',' && tail2[0] == '}');
            assert(false);
        } else {
            assert(json_of_obj(fs1.drop_first()) + seq!['}'] + x =~= tail1.drop_first());
            assert(json_of_obj(fs2.drop_first()) + seq!['}'] + y =~= tail2.drop_first());
            lemma_obj_fields_unique(fs1.drop_first(), fs2.drop_first(), tail1.drop_first(), x, y);
            assert(fs1 =~= seq![fs1[0]] + fs1.drop_first());
            assert(fs2 =~= seq![fs2[0]] + fs2.drop_first());
        }
    }
}

/// The canonical text determines the entity: two values with the same
/// canonical JSON rendering are the same value.
///
/// This is the round-trip law of the stored form.  Inserting an entity
/// stores exactly its canonical rendering; whatever the reader decodes
/// re-renders to exactly the text it read; and by this law a value
/// that re-renders to the rendering of `a` is `a` itself.  So an
/// entity read back from its stored text is deep-equal to the entity
/// that was stored.
pub proof fn lemma_json_of_injective(a: SpecValue, b: SpecValue)
    requires
        json_of(a) == json_of(b),
    ensures
        a == b,
{
    lemma_json_first_char(a);
    lemma_value_unique(a, b, json_of(a), Seq::empty(), Seq::empty());
}

} // verus!
