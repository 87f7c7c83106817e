//! The identifier generator: 128-bit sortable identifiers rendered as
//! 26-character strings over a base-32 alphabet.  The top 48 bits carry
//! a millisecond timestamp, the rest randomness; generation is delegated
//! to the `ulid` crate while the string codec is the library's own.
use vstd::prelude::*;

use vstd::arithmetic::power2::lemma_pow2_adds;
use vstd::arithmetic::power2::lemma_pow2_strictly_increases;
use vstd::arithmetic::power2::lemma2_to64;
use vstd::arithmetic::power2::lemma2_to64_rest;
use vstd::arithmetic::power2::pow2;

use crate::errors::DocDbError;

verus! {

/// A sortable 128-bit entity identifier.
#[derive(Clone, Copy, PartialEq, Eq, Structural, Hash, Debug)]
pub struct Ulid(pub u128);

/// The encoding alphabet: `0123456789ABCDEFGHJKMNPQRSTVWXYZ`.
pub open spec fn b32_char(d: int) -> char {
    if d == 0 {
        '0'
    } else if d == 1 {
        '1'
    } else if d == 2 {
        '2'
    } else if d == 3 {
        '3'
    } else if d == 4 {
        '4'
    } else if d == 5 {
        '5'
    } else if d == 6 {
        '6'
    } else if d == 7 {
        '7'
    } else if d == 8 {
        '8'
    } else if d == 9 {
        '9'
    } else if d == 10 {
        'A'
    } else if d == 11 {
        'B'
    } else if d == 12 {
        'C'
    } else if d == 13 {
        'D'
    } else if d == 14 {
        'E'
    } else if d == 15 {
        'F'
    } else if d == 16 {
        'G'
    } else if d == 17 {
        'H'
    } else if d == 18 {
        'J'
    } else if d == 19 {
        'K'
    } else if d == 20 {
        'M'
    } else if d == 21 {
        'N'
    } else if d == 22 {
        'P'
    } else if d == 23 {
        'Q'
    } else if d == 24 {
        'R'
    } else if d == 25 {
        'S'
    } else if d == 26 {
        'T'
    } else if d == 27 {
        'V'
    } else if d == 28 {
        'W'
    } else if d == 29 {
        'X'
    } else if d == 30 {
        'Y'
    } else {
        'Z'
    }
}

/// The digit a character stands for, or -1 when it is not in the alphabet.
pub open spec fn b32_val(c: char) -> int {
    if c == '0' {
        0
    } else if c == '1' {
        1
    } else if c == '2' {
        2
    } else if c == '3' {
        3
    } else if c == '4' {
        4
    } else if c == '5' {
        5
    } else if c == '6' {
        6
    } else if c == '7' {
        7
    } else if c == '8' {
        8
    } else if c == '9' {
        9
    } else if c == 'A' {
        10
    } else if c == 'B' {
        11
    } else if c == 'C' {
        12
    } else if c == 'D' {
        13
    } else if c == 'E' {
        14
    } else if c == 'F' {
        15
    } else if c == 'G' {
        16
    } else if c == 'H' {
        17
    } else if c == 'J' {
        18
    } else if c == 'K' {
        19
    } else if c == 'M' {
        20
    } else if c == 'N' {
        21
    } else if c == 'P' {
        22
    } else if c == 'Q' {
        23
    } else if c == 'R' {
        24
    } else if c == 'S' {
        25
    } else if c == 'T' {
        26
    } else if c == 'V' {
        27
    } else if c == 'W' {
        28
    } else if c == 'X' {
        29
    } else if c == 'Y' {
        30
    } else if c == 'Z' {
        31
    } else {
        -1
    }
}

/// Character `i` of the canonical rendering: the `i`-th 5-bit group of
/// the identifier, most significant first (the first group has 3 bits).
pub open spec fn ulid_char(bits: u128, i: int) -> char {
    b32_char(((bits >> ((125 - 5 * i) as u128)) & 31) as int)
}

/// The canonical 26-character rendering of an identifier.
pub open spec fn ulid_str(bits: u128) -> Seq<char> {
    Seq::new(26, |i: int| ulid_char(bits, i))
}

/// The number read back from the first `n` digits of a rendering.
pub open spec fn b32_fold(s: Seq<char>, n: int) -> int
    decreases n,
{
    if n <= 0 {
        0
    } else {
        b32_fold(s, n - 1) * 32 + b32_val(s[n - 1])
    }
}

/// Every digit of a rendering is in the alphabet and the first is below 8.
pub proof fn lemma_ulid_str_digits(bits: u128)
    ensures
        forall|i: int| 0 <= i < 26 ==> 0 <= b32_val(#[trigger] ulid_str(bits)[i]) < 32,
        b32_val(ulid_str(bits)[0]) < 8,
        forall|i: int| 0 <= i < 26 ==> b32_val(#[trigger] ulid_str(bits)[i]) == ((bits >> ((125
            - 5 * i) as u128)) & 31) as int,
{
    assert forall|i: int| 0 <= i < 26 implies 0 <= b32_val(#[trigger] ulid_str(bits)[i]) < 32
        && b32_val(ulid_str(bits)[i]) == ((bits >> ((125 - 5 * i) as u128)) & 31) as int by {
        let d = ((bits >> ((125 - 5 * i) as u128)) & 31) as int;
        assert(0 <= d < 32) by {
            assert(forall|x: u128, k: u128| ((x >> k) & 31) < 32) by (bit_vector);
        }
        assert(b32_val(b32_char(d)) == d);
    }
    assert((bits >> 125u128) & 31 == bits >> 125u128 && bits >> 125u128 < 8) by (bit_vector);
}

/// Reading the 26 digits of a rendering gives back the identifier.
pub proof fn lemma_fold_of_ulid_str(bits: u128)
    ensures
        b32_fold(ulid_str(bits), 26) == bits,
{
    lemma_ulid_str_digits(bits);
    let s = ulid_str(bits);
    assert forall|n: int| 1 <= n <= 26 implies b32_fold(s, n) == (bits >> ((130 - 5 * n) as u128))
        as int by {
        lemma_fold_step(bits, n);
    }
    assert(b32_fold(s, 26) == (bits >> 0u128) as int);
    assert(bits >> 0u128 == bits) by (bit_vector);
}

proof fn lemma_fold_step(bits: u128, n: int)
    requires
        1 <= n <= 26,
    ensures
        b32_fold(ulid_str(bits), n) == (bits >> ((130 - 5 * n) as u128)) as int,
    decreases n,
{
    lemma_ulid_str_digits(bits);
    let s = ulid_str(bits);
    let k = (130 - 5 * n) as u128;
    if n == 1 {
        assert(b32_fold(s, 0) == 0);
        assert(b32_fold(s, 1) == b32_val(s[0]));
        assert((bits >> 125u128) & 31 == bits >> 125u128) by (bit_vector);
    } else {
        lemma_fold_step(bits, n - 1);
        assert(b32_fold(s, n) == b32_fold(s, n - 1) * 32 + b32_val(s[n - 1]));
        assert(b32_val(s[n - 1]) == ((bits >> ((130 - 5 * n) as u128)) & 31) as int);
        let x = bits;
        assert(k <= 120 && (130 - 5 * (n - 1)) as u128 == (k + 5) as u128);
        assert((x >> ((k + 5) as u128)) * 32 + ((x >> k) & 31) == x >> k) by (bit_vector)
            requires
                k <= 120u128,
        ;
    }
}

/// Two identifiers with the same rendering are the same identifier.
pub proof fn lemma_ulid_str_injective(b1: u128, b2: u128)
    requires
        ulid_str(b1) == ulid_str(b2),
    ensures
        b1 == b2,
{
    lemma_fold_of_ulid_str(b1);
    lemma_fold_of_ulid_str(b2);
}

/// The first position where two equal-length renderings disagree.
proof fn first_diff(s1: Seq<char>, s2: Seq<char>) -> (j: int)
    requires
        s1.len() == s2.len(),
        s1 != s2,
    ensures
        0 <= j < s1.len(),
        s1[j] != s2[j],
        forall|i: int| 0 <= i < j ==> s1[i] == s2[i],
    decreases s1.len(),
{
    if s1.len() == 0 {
        assert(s1 =~= s2);
        0
    } else if s1[0] != s2[0] {
        0
    } else {
        assert(s1.drop_first() != s2.drop_first()) by {
            if s1.drop_first() == s2.drop_first() {
                assert forall|i: int| 0 <= i < s1.len() implies s1[i] == s2[i] by {
                    if i > 0 {
                        assert(s1[i] == s1.drop_first()[i - 1]);
                        assert(s2[i] == s2.drop_first()[i - 1]);
                    }
                }
                assert(s1 =~= s2);
            }
        }
        let j = first_diff(s1.drop_first(), s2.drop_first()) + 1;
        assert(forall|i: int|
            0 <= i < j - 1 ==> s1.drop_first()[i] == s2.drop_first()[i]);
        assert(forall|i: int| 1 <= i < j ==> s1[i] == s1.drop_first()[i - 1]);
        assert(forall|i: int| 1 <= i < j ==> s2[i] == s2.drop_first()[i - 1]);
        assert(s1[j] == s1.drop_first()[j - 1] && s2[j] == s2.drop_first()[j - 1]);
        j
    }
}

/// Folding two renderings that agree on their first `n` digits gives
/// the same number.
proof fn lemma_fold_prefix_equal(s1: Seq<char>, s2: Seq<char>, n: int)
    requires
        0 <= n,
        forall|i: int| 0 <= i < n ==> s1[i] == s2[i],
    ensures
        b32_fold(s1, n) == b32_fold(s2, n),
    decreases n,
{
    if n > 0 {
        lemma_fold_prefix_equal(s1, s2, n - 1);
    }
}

/// The alphabet is ordered: a larger digit gets a later character.
proof fn lemma_b32_char_order(d1: int, d2: int)
    requires
        0 <= d1 < d2 < 32,
    ensures
        (b32_char(d1) as int) < (b32_char(d2) as int),
{
}

/// Renderings sort as the identifiers do: a numerically smaller
/// identifier renders strictly earlier in lexicographic order.  This is
/// what makes the 26-character form sortable: listing entities by their
/// rendered identifiers lists them in creation order, as far as the
/// embedded timestamps order them.
pub proof fn lemma_ulid_str_sortable(b1: u128, b2: u128)
    requires
        b1 < b2,
    ensures
        crate::strings::lex_lt(ulid_str(b1), ulid_str(b2)),
{
    let s1 = ulid_str(b1);
    let s2 = ulid_str(b2);
    lemma_ulid_str_digits(b1);
    lemma_ulid_str_digits(b2);
    assert(s1 != s2) by {
        if s1 == s2 {
            lemma_ulid_str_injective(b1, b2);
        }
    }
    let j = first_diff(s1, s2);
    lemma_fold_prefix_equal(s1, s2, j);
    let k = (130 - 5 * j) as u128;
    assert(b1 >> k == b2 >> k) by {
        if j == 0 {
            assert(b1 >> 130u128 == b2 >> 130u128) by (bit_vector);
        } else {
            lemma_fold_step(b1, j);
            lemma_fold_step(b2, j);
        }
    }
    let d1 = ((b1 >> ((125 - 5 * j) as u128)) & 31) as int;
    let d2 = ((b2 >> ((125 - 5 * j) as u128)) & 31) as int;
    let m = (125 - 5 * j) as u128;
    assert(d1 <= d2) by {
        let x = b1;
        let y = b2;
        assert(k == m + 5 && m <= 125);
        assert(x >> ((m + 5) as u128) == y >> ((m + 5) as u128) && x < y && m <= 125 ==> ((x >> m)
            & 31) <= ((y >> m) & 31)) by (bit_vector);
    }
    assert(b32_val(s1[j]) == d1 && b32_val(s2[j]) == d2);
    assert(d1 != d2) by {
        if d1 == d2 {
            assert(s1[j] == b32_char(d1) && s2[j] == b32_char(d2));
        }
    }
    lemma_b32_char_order(d1, d2);
    assert((s1[j] as int) < (s2[j] as int));
    crate::strings::lemma_lex_lt_common_prefix(s1, s2, j);
    assert(crate::strings::lex_lt(s1.skip(j), s2.skip(j))) by {
        assert(s1.skip(j)[0] == s1[j] && s2.skip(j)[0] == s2[j]);
        assert(s2.skip(j).len() > 0);
    }
}

/// Relies on ulid::Ulid::generate: a fresh identifier built from the
/// current time and random bits; nothing can be promised of its value.
#[verifier::external_body]
fn fresh_ulid_bits() -> u128 {
    ulid::Ulid::generate().0
}

fn b32_char_of(d: u8) -> (c: char)
    requires
        d < 32,
    ensures
        c == b32_char(d as int),
{
    match d {
        0 => '0',
        1 => '1',
        2 => '2',
        3 => '3',
        4 => '4',
        5 => '5',
        6 => '6',
        7 => '7',
        8 => '8',
        9 => '9',
        10 => 'A',
        11 => 'B',
        12 => 'C',
        13 => 'D',
        14 => 'E',
        15 => 'F',
        16 => 'G',
        17 => 'H',
        18 => 'J',
        19 => 'K',
        20 => 'M',
        21 => 'N',
        22 => 'P',
        23 => 'Q',
        24 => 'R',
        25 => 'S',
        26 => 'T',
        27 => 'V',
        28 => 'W',
        29 => 'X',
        30 => 'Y',
        _ => 'Z',
    }
}

fn b32_val_of(c: char) -> (r: Option<u8>)
    ensures
        match r {
            Some(d) => d < 32 && b32_val(c) == d as int,
            None => b32_val(c) == -1,
        },
{
    match c {
        '0' => Some(0),
        '1' => Some(1),
        '2' => Some(2),
        '3' => Some(3),
        '4' => Some(4),
        '5' => Some(5),
        '6' => Some(6),
        '7' => Some(7),
        '8' => Some(8),
        '9' => Some(9),
        'A' => Some(10),
        'B' => Some(11),
        'C' => Some(12),
        'D' => Some(13),
        'E' => Some(14),
        'F' => Some(15),
        'G' => Some(16),
        'H' => Some(17),
        'J' => Some(18),
        'K' => Some(19),
        'M' => Some(20),
        'N' => Some(21),
        'P' => Some(22),
        'Q' => Some(23),
        'R' => Some(24),
        'S' => Some(25),
        'T' => Some(26),
        'V' => Some(27),
        'W' => Some(28),
        'X' => Some(29),
        'Y' => Some(30),
        'Z' => Some(31),
        _ => None,
    }
}

impl Ulid {
    /// A fresh identifier for a new entity.
    pub fn new() -> Ulid {
        Ulid(fresh_ulid_bits())
    }

    /// Whether this is the all-zero identifier.
    pub fn is_nil(&self) -> (r: bool)
        ensures
            r == (self.0 == 0),
    {
        self.0 == 0
    }

    /// The canonical 26-character rendering.
    pub fn to_string(&self) -> (r: String)
        ensures
            r@ == ulid_str(self.0),
    {
        let mut out = String::new();
        let mut i: usize = 0;
        while i < 26
            invariant
                i <= 26,
                out@.len() == i as int,
                forall|j: int| 0 <= j < i ==> out@[j] == ulid_char(self.0, j),
            decreases 26 - i,
        {
            let sh: u32 = 125 - 5 * (i as u32);
            let d: u128 = (self.0 >> sh) & 31;
            proof {
                assert(forall|x: u128, k: u128| ((x >> k) & 31) < 32) by (bit_vector);
            }
            crate::strings::push_char(&mut out, b32_char_of(d as u8));
            i = i + 1;
        }
        proof {
            assert(out@ =~= ulid_str(self.0));
        }
        out
    }

    /// Reads an identifier back from its canonical rendering.  Succeeds
    /// exactly on the canonical rendering of some identifier: the input
    /// must be 26 characters of the alphabet, the first below `8`, and
    /// anything else is an internal error.
    pub fn from_string(s: &str) -> (r: Result<Ulid, DocDbError>)
        ensures
            r is Ok ==> ulid_str(r->Ok_0.0) == s@,
            r is Err ==> r->Err_0 is InternalError,
            (exists|b: u128| ulid_str(b) == s@) ==> r is Ok,
    {
        let n = s.unicode_len();
        if n != 26 {
            proof {
                if exists|b: u128| ulid_str(b) == s@ {
                    let b = choose|b: u128| ulid_str(b) == s@;
                    assert(ulid_str(b).len() == 26);
                }
            }
            return Err(DocDbError::internal("identifier has wrong length", "DecodeError"));
        }
        let mut acc: u128 = 0;
        let mut i: usize = 0;
        while i < 26
            invariant
                i <= 26,
                n == s@.len() == 26,
                forall|j: int| 0 <= j < i ==> 0 <= b32_val(#[trigger] s@[j]) < 32,
                i > 0 ==> b32_val(s@[0]) < 8,
                acc as int == b32_fold(s@, i as int),
                i > 0 ==> acc < pow2((5 * i - 2) as nat),
            decreases 26 - i,
        {
            let c = s.get_char(i);
            let d = match b32_val_of(c) {
                Some(d) => d,
                None => {
                    proof {
                        lemma_no_candidate_on_bad_digit(s@, i as int);
                    }
                    return Err(
                        DocDbError::internal("identifier holds a character outside the alphabet", "DecodeError"),
                    );
                },
            };
            if i == 0 && d >= 8 {
                proof {
                    lemma_no_candidate_on_big_head(s@);
                }
                return Err(DocDbError::internal("identifier is out of range", "DecodeError"));
            }
            proof {
                lemma2_to64();
                lemma2_to64_rest();
                if i > 0 {
                    lemma_pow2_adds((5 * i - 2) as nat, 5);
                    if 5 * i + 3 < 128 {
                        lemma_pow2_strictly_increases((5 * i + 3) as nat, 128);
                    }
                    lemma_pow2_adds(64, 64);
                    assert(pow2(64) == 0x10000000000000000);
                    assert(pow2(128) == 0x100000000000000000000000000000000);
                    assert(acc * 32 + d < pow2((5 * i + 3) as nat)) by (nonlinear_arith)
                        requires
                            acc < pow2((5 * i - 2) as nat),
                            d < 32,
                            pow2((5 * i + 3) as nat) == pow2((5 * i - 2) as nat) * 32,
                    ;
                } else {
                    assert(pow2(3) == 8);
                }
            }
            acc = acc * 32 + (d as u128);
            i = i + 1;
        }
        let id = Ulid(acc);
        let rendered = id.to_string();
        if crate::strings::str_eq(rendered.as_str(), s) {
            Ok(id)
        } else {
            proof {
                if exists|b: u128| ulid_str(b) == s@ {
                    let b = choose|b: u128| ulid_str(b) == s@;
                    lemma_fold_of_ulid_str(b);
                    assert(acc as int == b32_fold(s@, 26));
                    assert(acc == b);
                }
            }
            Err(DocDbError::internal("identifier rendering does not match", "DecodeError"))
        }
    }
}

/// No identifier renders with a digit outside the alphabet.
proof fn lemma_no_candidate_on_bad_digit(s: Seq<char>, i: int)
    requires
        0 <= i < 26,
        s.len() == 26,
        b32_val(s[i]) == -1,
    ensures
        !(exists|b: u128| ulid_str(b) == s),
{
    if exists|b: u128| ulid_str(b) == s {
        let b = choose|b: u128| ulid_str(b) == s;
        lemma_ulid_str_digits(b);
        assert(0 <= b32_val(ulid_str(b)[i]) < 32);
    }
}

/// No identifier renders with a first digit of eight or more.
proof fn lemma_no_candidate_on_big_head(s: Seq<char>)
    requires
        s.len() == 26,
        b32_val(s[0]) >= 8,
    ensures
        !(exists|b: u128| ulid_str(b) == s),
{
    if exists|b: u128| ulid_str(b) == s {
        let b = choose|b: u128| ulid_str(b) == s;
        lemma_ulid_str_digits(b);
        assert(b32_val(ulid_str(b)[0]) < 8);
    }
}

} // verus!
