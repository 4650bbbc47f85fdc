//! The POI wire format: a JSON array of objects, each holding exactly the
//! nine POI fields (in any order, each exactly once). The grammar accepted
//! here is stated by the `parse_*` spec functions; the decoder and encoder
//! are proved against them.
//!
//! Bounds of this format: string literals (keys included) take the quote,
//! backslash and slash escapes, the five letter escapes (`\b \f \n \r
//! \t`) and `\uXXXX` escapes with surrogate halves pairing up, and must
//! decode to valid UTF-8; a member with an unknown key is read and
//! dropped, whatever well-formed value it holds; a known member seen twice
//! is refused; integer fields must fit an `i32`. The two coordinates are
//! kept as their number lexemes.

use vstd::prelude::*;

use crate::num::{dec_i32, digits_end, digits_val, is_digit, pow10};
use crate::num::{
    lemma_digits_end, lemma_digits_val_bounds, lemma_digits_val_lower, lemma_pow10_mono,
};
use crate::poi::{views_of, Poi, PoiV};
use crate::text::{
    check_utf8, encodable_text, escape, is_utf8, parse_string_rest, push_escaped,
    scan_string_rest,
};
use crate::text::lemma_parse_string_rest_props;

verus! {

/// JSON insignificant whitespace.
pub open spec fn is_ws(b: u8) -> bool {
    b == 0x20 || b == 0x09 || b == 0x0a || b == 0x0d
}

/// The first position at or after `i` holding no whitespace (or the end).
pub open spec fn ws_end(s: Seq<u8>, i: int) -> int
    decreases s.len() - i,
{
    if i < s.len() && is_ws(s[i]) {
        ws_end(s, i + 1)
    } else {
        i
    }
}

/// `ws_end` never moves backwards, nor past the end.
pub proof fn lemma_ws_end(s: Seq<u8>, i: int)
    requires
        0 <= i <= s.len(),
    ensures
        i <= ws_end(s, i) <= s.len(),
    decreases s.len() - i,
{
    if i < s.len() && is_ws(s[i]) {
        lemma_ws_end(s, i + 1);
    }
}

/// Skips whitespace, exactly as `ws_end` says.
pub fn skip_ws(s: &Vec<u8>, start: usize) -> (r: usize)
    requires
        start <= s@.len(),
    ensures
        r == ws_end(s@, start as int),
        start <= r <= s@.len(),
{
    let mut i: usize = start;
    while i < s.len() && (s[i] == 0x20 || s[i] == 0x09 || s[i] == 0x0a || s[i] == 0x0d)
        invariant
            start <= i <= s@.len(),
            ws_end(s@, start as int) == ws_end(s@, i as int),
        decreases s@.len() - i,
    {
        i = i + 1;
    }
    i
}

/// Scans a run of decimal digits, exactly as `digits_end` says.
pub fn scan_digits(s: &Vec<u8>, start: usize) -> (r: usize)
    requires
        start <= s@.len(),
    ensures
        r == digits_end(s@, start as int),
        start <= r <= s@.len(),
{
    let mut i: usize = start;
    while i < s.len() && 0x30 <= s[i] && s[i] <= 0x39
        invariant
            start <= i <= s@.len(),
            digits_end(s@, start as int) == digits_end(s@, i as int),
        decreases s@.len() - i,
    {
        i = i + 1;
    }
    i
}

/// Where the integer part of a number ends: a lone `0`, or a nonzero digit
/// followed by more digits. Leading zeros are refused.
pub open spec fn scan_int_part(s: Seq<u8>, i: int) -> Option<int> {
    if i < s.len() && s[i] == 0x30 {
        Some(i + 1)
    } else if i < s.len() && is_digit(s[i]) {
        Some(digits_end(s, i))
    } else {
        None
    }
}

/// Where the optional fraction part ends: a dot must carry at least one
/// digit; no dot leaves the position unchanged.
pub open spec fn scan_frac(s: Seq<u8>, i: int) -> Option<int> {
    if i < s.len() && s[i] == 0x2e {
        if i + 1 < s.len() && is_digit(s[i + 1]) {
            Some(digits_end(s, i + 1))
        } else {
            None
        }
    } else {
        Some(i)
    }
}

/// Where the optional exponent part ends: `e` or `E`, an optional sign,
/// then at least one digit.
pub open spec fn scan_exp(s: Seq<u8>, i: int) -> Option<int> {
    if i < s.len() && (s[i] == 0x65 || s[i] == 0x45) {
        let j = if i + 1 < s.len() && (s[i + 1] == 0x2b || s[i + 1] == 0x2d) {
            i + 2
        } else {
            i + 1
        };
        if j < s.len() && is_digit(s[j]) {
            Some(digits_end(s, j))
        } else {
            None
        }
    } else {
        Some(i)
    }
}

/// Where a JSON number starting at `i` ends: an optional minus sign, an
/// integer part, an optional fraction, an optional exponent.
pub open spec fn scan_number(s: Seq<u8>, i: int) -> Option<int> {
    let i1: int = if i < s.len() && s[i] == 0x2d {
        i + 1
    } else {
        i
    };
    match scan_int_part(s, i1) {
        Some(i2) => match scan_frac(s, i2) {
            Some(i3) => scan_exp(s, i3),
            None => None,
        },
        None => None,
    }
}

/// A whole sequence of bytes that is exactly one number.
pub open spec fn is_number_lexeme(t: Seq<u8>) -> bool {
    scan_number(t, 0) == Some(t.len() as int)
}

/// A scanned number ends after it began, and within the input.
pub proof fn lemma_scan_number_bounds(s: Seq<u8>, i: int)
    requires
        0 <= i <= s.len(),
        scan_number(s, i) is Some,
    ensures
        i < scan_number(s, i).unwrap() <= s.len(),
{
    let i1: int = if i < s.len() && s[i] == 0x2d {
        i + 1
    } else {
        i
    };
    let i2 = scan_int_part(s, i1).unwrap();
    lemma_digits_end(s, i1);
    assert(i1 < i2 <= s.len());
    let i3 = scan_frac(s, i2).unwrap();
    if i2 < s.len() && s[i2] == 0x2e {
        lemma_digits_end(s, i2 + 1);
    }
    assert(i2 <= i3 <= s.len());
    if i3 < s.len() && (s[i3] == 0x65 || s[i3] == 0x45) {
        let j: int = if i3 + 1 < s.len() && (s[i3 + 1] == 0x2b || s[i3 + 1] == 0x2d) {
            i3 + 2
        } else {
            i3 + 1
        };
        lemma_digits_end(s, j);
    }
}

/// Scans one number, exactly as `scan_number` says.
pub fn scan_number_x(s: &Vec<u8>, start: usize) -> (r: Option<usize>)
    requires
        start <= s@.len(),
    ensures
        match scan_number(s@, start as int) {
            Some(sj) => r matches Some(j) && j == sj && start < j <= s@.len(),
            None => r is None,
        },
{
    proof {
        if scan_number(s@, start as int) is Some {
            lemma_scan_number_bounds(s@, start as int);
        }
    }
    let i1: usize = if start < s.len() && s[start] == 0x2d {
        start + 1
    } else {
        start
    };
    // integer part
    let i2: usize = if i1 < s.len() && s[i1] == 0x30 {
        i1 + 1
    } else if i1 < s.len() && 0x30 <= s[i1] && s[i1] <= 0x39 {
        scan_digits(s, i1)
    } else {
        return None;
    };
    proof {
        lemma_digits_end(s@, i1 as int);
    }
    // fraction part
    let i3: usize = if i2 < s.len() && s[i2] == 0x2e {
        if i2 + 1 < s.len() && 0x30 <= s[i2 + 1] && s[i2 + 1] <= 0x39 {
            scan_digits(s, i2 + 1)
        } else {
            return None;
        }
    } else {
        i2
    };
    // exponent part
    if i3 < s.len() && (s[i3] == 0x65 || s[i3] == 0x45) {
        let j: usize = if i3 + 1 < s.len() && (s[i3 + 1] == 0x2b || s[i3 + 1] == 0x2d) {
            i3 + 2
        } else {
            i3 + 1
        };
        if j < s.len() && 0x30 <= s[j] && s[j] <= 0x39 {
            Some(scan_digits(s, j))
        } else {
            None
        }
    } else {
        Some(i3)
    }
}

/// Reads a signed integer that must fit an `i32`: the value and the
/// position after its digits. A value out of range is refused.
pub open spec fn parse_i32_num(s: Seq<u8>, i: int) -> Option<(int, int)> {
    let neg = i < s.len() && s[i] == 0x2d;
    let i1: int = if neg {
        i + 1
    } else {
        i
    };
    match scan_int_part(s, i1) {
        Some(i2) => {
            let v: int = if neg {
                -digits_val(s, i1, i2)
            } else {
                digits_val(s, i1, i2)
            };
            if i32::MIN <= v <= i32::MAX {
                Some((v, i2))
            } else {
                None
            }
        },
        None => None,
    }
}

/// Reads a signed `i32`, exactly as `parse_i32_num` says.
pub fn parse_i32_x(s: &Vec<u8>, start: usize) -> (r: Option<(i32, usize)>)
    requires
        start <= s@.len(),
    ensures
        match parse_i32_num(s@, start as int) {
            Some((sv, sj)) => r matches Some((v, j)) && v as int == sv && j == sj && start < j
                <= s@.len(),
            None => r is None,
        },
{
    let neg = start < s.len() && s[start] == 0x2d;
    let i1: usize = if neg {
        start + 1
    } else {
        start
    };
    let i2: usize = if i1 < s.len() && s[i1] == 0x30 {
        i1 + 1
    } else if i1 < s.len() && 0x30 <= s[i1] && s[i1] <= 0x39 {
        scan_digits(s, i1)
    } else {
        return None;
    };
    proof {
        lemma_digits_end(s@, i1 as int);
        if !(i1 < s@.len() && s@[i1 as int] == 0x30) {
            assert(i2 == digits_end(s@, i1 as int));
        }
        assert(i1 < i2 <= s@.len());
        assert(forall|k: int| i1 <= k < i2 ==> is_digit(s@[k]));
    }
    if i2 - i1 > 10 {
        // at least eleven digits with no leading zero: out of `i32` range
        proof {
            assert(s@[i1 as int] != 0x30);
            lemma_digits_val_lower(s@, i1 as int, i2 as int);
            lemma_pow10_mono(10, (i2 - i1 - 1) as nat);
            assert(pow10(10) == 10000000000) by {
                assert(pow10(0) == 1);
                assert(pow10(1) == 10);
                assert(pow10(2) == 100);
                assert(pow10(3) == 1000);
                assert(pow10(4) == 10000);
                assert(pow10(5) == 100000);
                assert(pow10(6) == 1000000);
                assert(pow10(7) == 10000000);
                assert(pow10(8) == 100000000);
                assert(pow10(9) == 1000000000);
            };
            assert(digits_val(s@, i1 as int, i2 as int) >= 10000000000);
        }
        return None;
    }
    let mut acc: u64 = 0;
    let mut k: usize = i1;
    while k < i2
        invariant
            i1 <= k <= i2 <= s@.len(),
            i2 - i1 <= 10,
            forall|m: int| i1 <= m < i2 ==> is_digit(s@[m]),
            acc as int == digits_val(s@, i1 as int, k as int),
            (acc as int) < pow10((k - i1) as nat),
        decreases i2 - k,
    {
        proof {
            lemma_digits_val_bounds(s@, i1 as int, k + 1);
            lemma_pow10_mono((k + 1 - i1) as nat, 10 as nat);
            assert(pow10(10) == 10000000000) by {
                assert(pow10(0) == 1);
                assert(pow10(1) == 10);
                assert(pow10(2) == 100);
                assert(pow10(3) == 1000);
                assert(pow10(4) == 10000);
                assert(pow10(5) == 100000);
                assert(pow10(6) == 1000000);
                assert(pow10(7) == 10000000);
                assert(pow10(8) == 100000000);
                assert(pow10(9) == 1000000000);
            };
        }
        let d = s[k];
        acc = acc * 10 + ((d - 0x30) as u64);
        k = k + 1;
    }
    proof {
        lemma_digits_val_bounds(s@, i1 as int, i2 as int);
    }
    if neg {
        if acc > 2147483648 {
            return None;
        }
        let v: i32 = (-(acc as i64)) as i32;
        Some((v, i2))
    } else {
        if acc > 2147483647 {
            return None;
        }
        Some((acc as i32, i2))
    }
}

/// A body that is not a well-formed page of POI records.
#[derive(Clone, Copy, PartialEq, Eq, Debug)]
pub struct DecodeError;

/// The member keys of a POI object.
pub open spec fn key_id() -> Seq<u8> {
    seq![0x69u8, 0x64u8]
}

pub open spec fn key_name() -> Seq<u8> {
    seq![0x6eu8, 0x61u8, 0x6du8, 0x65u8]
}

pub open spec fn key_category_id() -> Seq<u8> {
    seq![0x63u8, 0x61u8, 0x74u8, 0x65u8, 0x67u8, 0x6fu8, 0x72u8, 0x79u8, 0x5fu8, 0x69u8, 0x64u8]
}

pub open spec fn key_address_id() -> Seq<u8> {
    seq![0x61u8, 0x64u8, 0x64u8, 0x72u8, 0x65u8, 0x73u8, 0x73u8, 0x5fu8, 0x69u8, 0x64u8]
}

pub open spec fn key_latitude() -> Seq<u8> {
    seq![0x6cu8, 0x61u8, 0x74u8, 0x69u8, 0x74u8, 0x75u8, 0x64u8, 0x65u8]
}

pub open spec fn key_longitude() -> Seq<u8> {
    seq![0x6cu8, 0x6fu8, 0x6eu8, 0x67u8, 0x69u8, 0x74u8, 0x75u8, 0x64u8, 0x65u8]
}

pub open spec fn key_slug() -> Seq<u8> {
    seq![0x73u8, 0x6cu8, 0x75u8, 0x67u8]
}

pub open spec fn key_created_at() -> Seq<u8> {
    seq![0x63u8, 0x72u8, 0x65u8, 0x61u8, 0x74u8, 0x65u8, 0x64u8, 0x5fu8, 0x61u8, 0x74u8]
}

pub open spec fn key_updated_at() -> Seq<u8> {
    seq![0x75u8, 0x70u8, 0x64u8, 0x61u8, 0x74u8, 0x65u8, 0x64u8, 0x5fu8, 0x61u8, 0x74u8]
}

/// Which POI field a member key names: 1 to 9 in declaration order,
/// 0 for a key this format does not know.
pub open spec fn key_code_spec(k: Seq<u8>) -> u8 {
    if k == key_id() {
        1
    } else if k == key_name() {
        2
    } else if k == key_category_id() {
        3
    } else if k == key_address_id() {
        4
    } else if k == key_latitude() {
        5
    } else if k == key_longitude() {
        6
    } else if k == key_slug() {
        7
    } else if k == key_created_at() {
        8
    } else if k == key_updated_at() {
        9
    } else {
        0
    }
}

/// A POI object in the middle of being read: each field seen so far.
#[verifier::ext_equal]
pub ghost struct PartV {
    pub id: Option<int>,
    pub name: Option<Seq<u8>>,
    pub category_id: Option<int>,
    pub address_id: Option<int>,
    pub latitude: Option<Seq<u8>>,
    pub longitude: Option<Seq<u8>>,
    pub slug: Option<Seq<u8>>,
    pub created_at: Option<Seq<u8>>,
    pub updated_at: Option<Seq<u8>>,
}

/// No field seen yet.
pub open spec fn empty_part() -> PartV {
    PartV {
        id: None,
        name: None,
        category_id: None,
        address_id: None,
        latitude: None,
        longitude: None,
        slug: None,
        created_at: None,
        updated_at: None,
    }
}

/// A record is complete once every field was seen exactly once.
pub open spec fn complete(acc: PartV) -> Option<PoiV> {
    if acc.id is Some && acc.name is Some && acc.category_id is Some && acc.address_id is Some
        && acc.latitude is Some && acc.longitude is Some && acc.slug is Some
        && acc.created_at is Some && acc.updated_at is Some {
        Some(
            PoiV {
                id: acc.id->0,
                name: acc.name->0,
                category_id: acc.category_id->0,
                address_id: acc.address_id->0,
                latitude: acc.latitude->0,
                longitude: acc.longitude->0,
                slug: acc.slug->0,
                created_at: acc.created_at->0,
                updated_at: acc.updated_at->0,
            },
        )
    } else {
        None
    }
}

/// Reads the value of the member named by `code` and records it. A field
/// seen twice, a value of the wrong kind, and an unknown key are refused.
pub open spec fn parse_value_for(s: Seq<u8>, i: int, code: u8, acc: PartV) -> Option<
    (PartV, int),
> {
    if code == 1 {
        if acc.id is Some {
            None
        } else {
            match parse_i32_num(s, i) {
                Some((v, j)) => Some((PartV { id: Some(v), ..acc }, j)),
                None => None,
            }
        }
    } else if code == 2 {
        if acc.name is Some {
            None
        } else if i < s.len() && s[i] == 0x22 {
            match parse_string_rest(s, i + 1) {
                Some((t, j)) => if is_utf8(t) {
                    Some((PartV { name: Some(t), ..acc }, j))
                } else {
                    None
                },
                None => None,
            }
        } else {
            None
        }
    } else if code == 3 {
        if acc.category_id is Some {
            None
        } else {
            match parse_i32_num(s, i) {
                Some((v, j)) => Some((PartV { category_id: Some(v), ..acc }, j)),
                None => None,
            }
        }
    } else if code == 4 {
        if acc.address_id is Some {
            None
        } else {
            match parse_i32_num(s, i) {
                Some((v, j)) => Some((PartV { address_id: Some(v), ..acc }, j)),
                None => None,
            }
        }
    } else if code == 5 {
        if acc.latitude is Some {
            None
        } else {
            match scan_number(s, i) {
                Some(j) => Some((PartV { latitude: Some(s.subrange(i, j)), ..acc }, j)),
                None => None,
            }
        }
    } else if code == 6 {
        if acc.longitude is Some {
            None
        } else {
            match scan_number(s, i) {
                Some(j) => Some((PartV { longitude: Some(s.subrange(i, j)), ..acc }, j)),
                None => None,
            }
        }
    } else if code == 7 {
        if acc.slug is Some {
            None
        } else if i < s.len() && s[i] == 0x22 {
            match parse_string_rest(s, i + 1) {
                Some((t, j)) => if is_utf8(t) {
                    Some((PartV { slug: Some(t), ..acc }, j))
                } else {
                    None
                },
                None => None,
            }
        } else {
            None
        }
    } else if code == 8 {
        if acc.created_at is Some {
            None
        } else if i < s.len() && s[i] == 0x22 {
            match parse_string_rest(s, i + 1) {
                Some((t, j)) => if is_utf8(t) {
                    Some((PartV { created_at: Some(t), ..acc }, j))
                } else {
                    None
                },
                None => None,
            }
        } else {
            None
        }
    } else if code == 9 {
        if acc.updated_at is Some {
            None
        } else if i < s.len() && s[i] == 0x22 {
            match parse_string_rest(s, i + 1) {
                Some((t, j)) => if is_utf8(t) {
                    Some((PartV { updated_at: Some(t), ..acc }, j))
                } else {
                    None
                },
                None => None,
            }
        } else {
            None
        }
    } else {
        None
    }
}

/// The recursion budget of the value skipper: more steps than entities
/// any value that fits in the input can hold, so the budget never decides
/// on a value that fits.
pub open spec fn skip_fuel(s: Seq<u8>) -> nat {
    if s.len() < usize::MAX / 2 {
        (2 * s.len() + 2) as nat
    } else {
        usize::MAX as nat
    }
}

/// Passes over one JSON value of any kind without keeping it, as the
/// decoder does for a member it does not know: strings (UTF-8 checked as
/// everywhere), numbers, the three literals, and nested arrays and
/// objects. Returns the position after the value.
pub open spec fn skip_value(s: Seq<u8>, i: int, fuel: nat) -> Option<int>
    decreases fuel,
{
    if fuel == 0 || i < 0 || i >= s.len() {
        None
    } else if s[i] == 0x22 {
        match parse_string_rest(s, i + 1) {
            Some((t, j)) => if is_utf8(t) {
                Some(j)
            } else {
                None
            },
            None => None,
        }
    } else if s[i] == 0x7b {
        let j = ws_end(s, i + 1);
        if j < s.len() && s[j] == 0x7d {
            Some(j + 1)
        } else {
            skip_members(s, j, (fuel - 1) as nat)
        }
    } else if s[i] == 0x5b {
        let j = ws_end(s, i + 1);
        if j < s.len() && s[j] == 0x5d {
            Some(j + 1)
        } else {
            skip_elements(s, j, (fuel - 1) as nat)
        }
    } else if s[i] == 0x74 {
        if i + 4 <= s.len() && s[i + 1] == 0x72 && s[i + 2] == 0x75 && s[i + 3] == 0x65 {
            Some(i + 4)
        } else {
            None
        }
    } else if s[i] == 0x66 {
        if i + 5 <= s.len() && s[i + 1] == 0x61 && s[i + 2] == 0x6c && s[i + 3] == 0x73 && s[i
            + 4] == 0x65 {
            Some(i + 5)
        } else {
            None
        }
    } else if s[i] == 0x6e {
        if i + 4 <= s.len() && s[i + 1] == 0x75 && s[i + 2] == 0x6c && s[i + 3] == 0x6c {
            Some(i + 4)
        } else {
            None
        }
    } else {
        scan_number(s, i)
    }
}

/// Passes over the members of a nonempty object being skipped.
pub open spec fn skip_members(s: Seq<u8>, i: int, fuel: nat) -> Option<int>
    decreases fuel,
{
    if fuel == 0 {
        None
    } else if i < s.len() && s[i] == 0x22 {
        match parse_string_rest(s, i + 1) {
            Some((k, j1)) => if !is_utf8(k) {
                None
            } else {
                let j2 = ws_end(s, j1);
                if j2 < s.len() && s[j2] == 0x3a {
                    match skip_value(s, ws_end(s, j2 + 1), (fuel - 1) as nat) {
                        Some(j3) => {
                            let j4 = ws_end(s, j3);
                            if j4 < s.len() && s[j4] == 0x2c {
                                skip_members(s, ws_end(s, j4 + 1), (fuel - 1) as nat)
                            } else if j4 < s.len() && s[j4] == 0x7d {
                                Some(j4 + 1)
                            } else {
                                None
                            }
                        },
                        None => None,
                    }
                } else {
                    None
                }
            },
            None => None,
        }
    } else {
        None
    }
}

/// Passes over the elements of a nonempty array being skipped.
pub open spec fn skip_elements(s: Seq<u8>, i: int, fuel: nat) -> Option<int>
    decreases fuel,
{
    if fuel == 0 {
        None
    } else {
        match skip_value(s, i, (fuel - 1) as nat) {
            Some(j) => {
                let j2 = ws_end(s, j);
                if j2 < s.len() && s[j2] == 0x2c {
                    skip_elements(s, ws_end(s, j2 + 1), (fuel - 1) as nat)
                } else if j2 < s.len() && s[j2] == 0x5d {
                    Some(j2 + 1)
                } else {
                    None
                }
            },
            None => None,
        }
    }
}

/// Reads one `"key": value` member: a known key records its value in
/// `acc`; an unknown key has its value passed over and `acc` unchanged.
pub open spec fn parse_member(s: Seq<u8>, i: int, acc: PartV) -> Option<(PartV, int)> {
    if i < s.len() && s[i] == 0x22 {
        match parse_string_rest(s, i + 1) {
            Some((k, j1)) => if !is_utf8(k) {
                None
            } else {
                let code = key_code_spec(k);
                let j2 = ws_end(s, j1);
                if j2 < s.len() && s[j2] == 0x3a {
                    if code == 0 {
                        match skip_value(s, ws_end(s, j2 + 1), skip_fuel(s)) {
                            Some(j3) => Some((acc, j3)),
                            None => None,
                        }
                    } else {
                        parse_value_for(s, ws_end(s, j2 + 1), code, acc)
                    }
                } else {
                    None
                }
            },
            None => None,
        }
    } else {
        None
    }
}

/// Reads members separated by commas until the closing brace, which must
/// leave the record complete. `fuel` bounds the recursion; nine distinct
/// members can never exhaust it.
pub open spec fn parse_members(s: Seq<u8>, i: int, acc: PartV, fuel: nat) -> Option<
    (PoiV, int),
>
    decreases fuel,
{
    match parse_member(s, i, acc) {
        Some((acc2, j)) => {
            let j2 = ws_end(s, j);
            if j2 < s.len() && s[j2] == 0x2c {
                if fuel == 0 {
                    None
                } else {
                    parse_members(s, ws_end(s, j2 + 1), acc2, (fuel - 1) as nat)
                }
            } else if j2 < s.len() && s[j2] == 0x7d {
                match complete(acc2) {
                    Some(p) => Some((p, j2 + 1)),
                    None => None,
                }
            } else {
                None
            }
        },
        None => None,
    }
}

/// Reads one POI object: a brace, the nine members, a closing brace.
pub open spec fn parse_object(s: Seq<u8>, i: int) -> Option<(PoiV, int)> {
    if i < s.len() && s[i] == 0x7b {
        parse_members(s, ws_end(s, i + 1), empty_part(), s.len())
    } else {
        None
    }
}

/// A value read for a member ends after it began, and within the input.
pub proof fn lemma_parse_i32_bounds(s: Seq<u8>, i: int)
    requires
        0 <= i <= s.len(),
        parse_i32_num(s, i) is Some,
    ensures
        i < parse_i32_num(s, i).unwrap().1 <= s.len(),
{
    let i1: int = if i < s.len() && s[i] == 0x2d {
        i + 1
    } else {
        i
    };
    lemma_digits_end(s, i1);
}

/// Same, for a whole member value.
pub proof fn lemma_parse_value_advances(s: Seq<u8>, i: int, code: u8, acc: PartV)
    requires
        0 <= i <= s.len(),
        parse_value_for(s, i, code, acc) is Some,
    ensures
        i < parse_value_for(s, i, code, acc).unwrap().1 <= s.len(),
{
    if code == 1 || code == 3 || code == 4 {
        lemma_parse_i32_bounds(s, i);
    } else if code == 5 || code == 6 {
        lemma_scan_number_bounds(s, i);
    } else {
        lemma_parse_string_rest_props(s, i + 1);
    }
}

/// A skipped value ends after it began, and within the input.
pub proof fn lemma_skip_value_bounds(s: Seq<u8>, i: int, fuel: nat)
    requires
        0 <= i <= s.len(),
        skip_value(s, i, fuel) is Some,
    ensures
        i < skip_value(s, i, fuel).unwrap() <= s.len(),
    decreases fuel,
{
    if s[i] == 0x22 {
        lemma_parse_string_rest_props(s, i + 1);
    } else if s[i] == 0x7b {
        let j = ws_end(s, i + 1);
        lemma_ws_end(s, i + 1);
        if j < s.len() && s[j] == 0x7d {
        } else {
            lemma_skip_members_bounds(s, j, (fuel - 1) as nat);
        }
    } else if s[i] == 0x5b {
        let j = ws_end(s, i + 1);
        lemma_ws_end(s, i + 1);
        if j < s.len() && s[j] == 0x5d {
        } else {
            lemma_skip_elements_bounds(s, j, (fuel - 1) as nat);
        }
    } else if s[i] == 0x74 || s[i] == 0x66 || s[i] == 0x6e {
    } else {
        lemma_scan_number_bounds(s, i);
    }
}

/// Same, for the member run of a skipped object.
pub proof fn lemma_skip_members_bounds(s: Seq<u8>, i: int, fuel: nat)
    requires
        0 <= i <= s.len(),
        skip_members(s, i, fuel) is Some,
    ensures
        i < skip_members(s, i, fuel).unwrap() <= s.len(),
    decreases fuel,
{
    let (k, j1) = parse_string_rest(s, i + 1).unwrap();
    lemma_parse_string_rest_props(s, i + 1);
    let j2 = ws_end(s, j1);
    lemma_ws_end(s, j1);
    let j3 = ws_end(s, j2 + 1);
    lemma_ws_end(s, j2 + 1);
    lemma_skip_value_bounds(s, j3, (fuel - 1) as nat);
    let jv = skip_value(s, j3, (fuel - 1) as nat).unwrap();
    let j4 = ws_end(s, jv);
    lemma_ws_end(s, jv);
    if j4 < s.len() && s[j4] == 0x2c {
        lemma_ws_end(s, j4 + 1);
        lemma_skip_members_bounds(s, ws_end(s, j4 + 1), (fuel - 1) as nat);
    }
}

/// Same, for the element run of a skipped array.
pub proof fn lemma_skip_elements_bounds(s: Seq<u8>, i: int, fuel: nat)
    requires
        0 <= i <= s.len(),
        skip_elements(s, i, fuel) is Some,
    ensures
        i < skip_elements(s, i, fuel).unwrap() <= s.len(),
    decreases fuel,
{
    lemma_skip_value_bounds(s, i, (fuel - 1) as nat);
    let jv = skip_value(s, i, (fuel - 1) as nat).unwrap();
    let j2 = ws_end(s, jv);
    lemma_ws_end(s, jv);
    if j2 < s.len() && s[j2] == 0x2c {
        lemma_ws_end(s, j2 + 1);
        lemma_skip_elements_bounds(s, ws_end(s, j2 + 1), (fuel - 1) as nat);
    }
}

/// Same, for a whole member.
pub proof fn lemma_parse_member_advances(s: Seq<u8>, i: int, acc: PartV)
    requires
        0 <= i <= s.len(),
        parse_member(s, i, acc) is Some,
    ensures
        i < parse_member(s, i, acc).unwrap().1 <= s.len(),
{
    let (k, j1) = parse_string_rest(s, i + 1).unwrap();
    lemma_parse_string_rest_props(s, i + 1);
    let j2 = ws_end(s, j1);
    lemma_ws_end(s, j1);
    let j3 = ws_end(s, j2 + 1);
    lemma_ws_end(s, j2 + 1);
    if key_code_spec(k) == 0 {
        lemma_skip_value_bounds(s, j3, skip_fuel(s));
    } else {
        lemma_parse_value_advances(s, j3, key_code_spec(k), acc);
    }
}

/// Same, for the whole member list up to the closing brace.
pub proof fn lemma_parse_members_bounds(s: Seq<u8>, i: int, acc: PartV, fuel: nat)
    requires
        0 <= i <= s.len(),
        parse_members(s, i, acc, fuel) is Some,
    ensures
        i < parse_members(s, i, acc, fuel).unwrap().1 <= s.len(),
    decreases fuel,
{
    let (acc2, j) = parse_member(s, i, acc).unwrap();
    lemma_parse_member_advances(s, i, acc);
    let j2 = ws_end(s, j);
    lemma_ws_end(s, j);
    if j2 < s.len() && s[j2] == 0x2c {
        let j3 = ws_end(s, j2 + 1);
        lemma_ws_end(s, j2 + 1);
        lemma_parse_members_bounds(s, j3, acc2, (fuel - 1) as nat);
    }
}

/// Same, for a whole object.
pub proof fn lemma_parse_object_advances(s: Seq<u8>, i: int)
    requires
        0 <= i <= s.len(),
        parse_object(s, i) is Some,
    ensures
        i < parse_object(s, i).unwrap().1 <= s.len(),
{
    lemma_ws_end(s, i + 1);
    lemma_parse_members_bounds(s, ws_end(s, i + 1), empty_part(), s.len());
}

/// Reads objects separated by commas up to the closing bracket of a
/// nonempty array.
pub open spec fn parse_items(s: Seq<u8>, i: int) -> Option<(Seq<PoiV>, int)>
    decreases s.len() - i,
    when 0 <= i <= s.len()
{
    match parse_object(s, i) {
        Some((p, j)) => {
            let j2 = ws_end(s, j);
            if j2 < s.len() && s[j2] == 0x2c {
                proof {
                    lemma_parse_object_advances(s, i);
                    lemma_ws_end(s, j);
                    lemma_ws_end(s, j2 + 1);
                }
                match parse_items(s, ws_end(s, j2 + 1)) {
                    Some((ps, j3)) => Some((seq![p] + ps, j3)),
                    None => None,
                }
            } else if j2 < s.len() && s[j2] == 0x5d {
                Some((seq![p], j2 + 1))
            } else {
                None
            }
        },
        None => None,
    }
}

/// Same, for a whole run of array items.
pub proof fn lemma_parse_items_bounds(s: Seq<u8>, i: int)
    requires
        0 <= i <= s.len(),
        parse_items(s, i) is Some,
    ensures
        i < parse_items(s, i).unwrap().1 <= s.len(),
    decreases s.len() - i,
{
    let (p, j) = parse_object(s, i).unwrap();
    lemma_parse_object_advances(s, i);
    let j2 = ws_end(s, j);
    lemma_ws_end(s, j);
    if j2 < s.len() && s[j2] == 0x2c {
        let j3 = ws_end(s, j2 + 1);
        lemma_ws_end(s, j2 + 1);
        lemma_parse_items_bounds(s, j3);
    }
}

/// What a response body means: `None` for a body this format refuses,
/// otherwise the page of records, in input order. The body must be one
/// array of POI objects with nothing but whitespace around it.
pub open spec fn spec_decode(s: Seq<u8>) -> Option<Seq<PoiV>> {
    let i = ws_end(s, 0);
    if i < s.len() && s[i] == 0x5b {
        let j = ws_end(s, i + 1);
        if j < s.len() && s[j] == 0x5d {
            if ws_end(s, j + 1) == s.len() {
                Some(Seq::empty())
            } else {
                None
            }
        } else {
            match parse_items(s, j) {
                Some((ps, j2)) => if ws_end(s, j2) == s.len() {
                    Some(ps)
                } else {
                    None
                },
                None => None,
            }
        }
    } else {
        None
    }
}

/// The executable shadow of `PartV`.
struct Part {
    id: Option<i32>,
    name: Option<Vec<u8>>,
    category_id: Option<i32>,
    address_id: Option<i32>,
    latitude: Option<Vec<u8>>,
    longitude: Option<Vec<u8>>,
    slug: Option<Vec<u8>>,
    created_at: Option<Vec<u8>>,
    updated_at: Option<Vec<u8>>,
}

pub closed spec fn oiv(o: Option<i32>) -> Option<int> {
    match o {
        Some(v) => Some(v as int),
        None => None,
    }
}

pub closed spec fn obv(o: Option<Vec<u8>>) -> Option<Seq<u8>> {
    match o {
        Some(v) => Some(v@),
        None => None,
    }
}

impl View for Part {
    type V = PartV;

    closed spec fn view(&self) -> PartV {
        PartV {
            id: oiv(self.id),
            name: obv(self.name),
            category_id: oiv(self.category_id),
            address_id: oiv(self.address_id),
            latitude: obv(self.latitude),
            longitude: obv(self.longitude),
            slug: obv(self.slug),
            created_at: obv(self.created_at),
            updated_at: obv(self.updated_at),
        }
    }
}

/// Classifies a member key, exactly as `key_code_spec` says.
fn key_code(k: &Vec<u8>) -> (c: u8)
    ensures
        c == key_code_spec(k@),
{
    let n = k.len();
    if n == 2 {
        if k[0] == 0x69 && k[1] == 0x64 {
            proof {
                assert(k@ =~= key_id());
            }
            1
        } else {
            0
        }
    } else if n == 4 {
        if k[0] == 0x6e && k[1] == 0x61 && k[2] == 0x6d && k[3] == 0x65 {
            proof {
                assert(k@ =~= key_name());
            }
            2
        } else if k[0] == 0x73 && k[1] == 0x6c && k[2] == 0x75 && k[3] == 0x67 {
            proof {
                assert(k@ =~= key_slug());
            }
            7
        } else {
            0
        }
    } else if n == 8 {
        if k[0] == 0x6c && k[1] == 0x61 && k[2] == 0x74 && k[3] == 0x69 && k[4] == 0x74 && k[5]
            == 0x75 && k[6] == 0x64 && k[7] == 0x65 {
            proof {
                assert(k@ =~= key_latitude());
            }
            5
        } else {
            0
        }
    } else if n == 9 {
        if k[0] == 0x6c && k[1] == 0x6f && k[2] == 0x6e && k[3] == 0x67 && k[4] == 0x69 && k[5]
            == 0x74 && k[6] == 0x75 && k[7] == 0x64 && k[8] == 0x65 {
            proof {
                assert(k@ =~= key_longitude());
            }
            6
        } else {
            0
        }
    } else if n == 10 {
        if k[0] == 0x61 && k[1] == 0x64 && k[2] == 0x64 && k[3] == 0x72 && k[4] == 0x65 && k[5]
            == 0x73 && k[6] == 0x73 && k[7] == 0x5f && k[8] == 0x69 && k[9] == 0x64 {
            proof {
                assert(k@ =~= key_address_id());
            }
            4
        } else if k[0] == 0x63 && k[1] == 0x72 && k[2] == 0x65 && k[3] == 0x61 && k[4] == 0x74
            && k[5] == 0x65 && k[6] == 0x64 && k[7] == 0x5f && k[8] == 0x61 && k[9] == 0x74 {
            proof {
                assert(k@ =~= key_created_at());
            }
            8
        } else if k[0] == 0x75 && k[1] == 0x70 && k[2] == 0x64 && k[3] == 0x61 && k[4] == 0x74
            && k[5] == 0x65 && k[6] == 0x64 && k[7] == 0x5f && k[8] == 0x61 && k[9] == 0x74 {
            proof {
                assert(k@ =~= key_updated_at());
            }
            9
        } else {
            0
        }
    } else if n == 11 {
        if k[0] == 0x63 && k[1] == 0x61 && k[2] == 0x74 && k[3] == 0x65 && k[4] == 0x67 && k[5]
            == 0x6f && k[6] == 0x72 && k[7] == 0x79 && k[8] == 0x5f && k[9] == 0x69 && k[10]
            == 0x64 {
            proof {
                assert(k@ =~= key_category_id());
            }
            3
        } else {
            0
        }
    } else {
        0
    }
}

/// Copies `s[a..b]` out, as a sequence of its own.
fn copy_range(s: &Vec<u8>, a: usize, b: usize) -> (r: Vec<u8>)
    requires
        a <= b <= s@.len(),
    ensures
        r@ == s@.subrange(a as int, b as int),
{
    let mut r: Vec<u8> = Vec::new();
    let mut k: usize = a;
    while k < b
        invariant
            a <= k <= b <= s@.len(),
            r@ == s@.subrange(a as int, k as int),
        decreases b - k,
    {
        r.push(s[k]);
        proof {
            assert(s@.subrange(a as int, k + 1) =~= s@.subrange(a as int, k as int).push(
                s@[k as int],
            ));
        }
        k = k + 1;
    }
    r
}

/// Passes over one value, exactly as `skip_value` says.
fn skip_value_x(s: &Vec<u8>, start: usize, fuel: usize) -> (r: Option<usize>)
    requires
        start <= s@.len(),
    ensures
        match skip_value(s@, start as int, fuel as nat) {
            Some(sj) => r matches Some(j) && j == sj && start < j <= s@.len(),
            None => r is None,
        },
    decreases fuel,
{
    proof {
        if skip_value(s@, start as int, fuel as nat) is Some {
            lemma_skip_value_bounds(s@, start as int, fuel as nat);
        }
    }
    if fuel == 0 || start >= s.len() {
        return None;
    }
    let b = s[start];
    if b == 0x22 {
        match scan_string_rest(s, start + 1) {
            Some((t, j)) => if check_utf8(&t) {
                Some(j)
            } else {
                None
            },
            None => None,
        }
    } else if b == 0x7b {
        let j = skip_ws(s, start + 1);
        if j < s.len() && s[j] == 0x7d {
            Some(j + 1)
        } else {
            skip_members_x(s, j, fuel - 1)
        }
    } else if b == 0x5b {
        let j = skip_ws(s, start + 1);
        if j < s.len() && s[j] == 0x5d {
            Some(j + 1)
        } else {
            skip_elements_x(s, j, fuel - 1)
        }
    } else if b == 0x74 {
        if s.len() - start >= 4 && s[start + 1] == 0x72 && s[start + 2] == 0x75 && s[start + 3]
            == 0x65 {
            Some(start + 4)
        } else {
            None
        }
    } else if b == 0x66 {
        if s.len() - start >= 5 && s[start + 1] == 0x61 && s[start + 2] == 0x6c && s[start + 3]
            == 0x73 && s[start + 4] == 0x65 {
            Some(start + 5)
        } else {
            None
        }
    } else if b == 0x6e {
        if s.len() - start >= 4 && s[start + 1] == 0x75 && s[start + 2] == 0x6c && s[start + 3]
            == 0x6c {
            Some(start + 4)
        } else {
            None
        }
    } else {
        scan_number_x(s, start)
    }
}

/// Passes over a skipped object's members, exactly as `skip_members` says.
fn skip_members_x(s: &Vec<u8>, start: usize, fuel: usize) -> (r: Option<usize>)
    requires
        start <= s@.len(),
    ensures
        match skip_members(s@, start as int, fuel as nat) {
            Some(sj) => r matches Some(j) && j == sj && start < j <= s@.len(),
            None => r is None,
        },
    decreases fuel,
{
    proof {
        if skip_members(s@, start as int, fuel as nat) is Some {
            lemma_skip_members_bounds(s@, start as int, fuel as nat);
        }
    }
    if fuel == 0 {
        return None;
    }
    if start < s.len() && s[start] == 0x22 {
        match scan_string_rest(s, start + 1) {
            Some((k, j1)) => {
                proof {
                    lemma_parse_string_rest_props(s@, start + 1);
                }
                if !check_utf8(&k) {
                    return None;
                }
                let j2 = skip_ws(s, j1);
                if j2 < s.len() && s[j2] == 0x3a {
                    let j3 = skip_ws(s, j2 + 1);
                    match skip_value_x(s, j3, fuel - 1) {
                        Some(jv) => {
                            let j4 = skip_ws(s, jv);
                            if j4 < s.len() && s[j4] == 0x2c {
                                let j5 = skip_ws(s, j4 + 1);
                                skip_members_x(s, j5, fuel - 1)
                            } else if j4 < s.len() && s[j4] == 0x7d {
                                Some(j4 + 1)
                            } else {
                                None
                            }
                        },
                        None => None,
                    }
                } else {
                    None
                }
            },
            None => None,
        }
    } else {
        None
    }
}

/// Passes over a skipped array's elements, exactly as `skip_elements` says.
fn skip_elements_x(s: &Vec<u8>, start: usize, fuel: usize) -> (r: Option<usize>)
    requires
        start <= s@.len(),
    ensures
        match skip_elements(s@, start as int, fuel as nat) {
            Some(sj) => r matches Some(j) && j == sj && start < j <= s@.len(),
            None => r is None,
        },
    decreases fuel,
{
    proof {
        if skip_elements(s@, start as int, fuel as nat) is Some {
            lemma_skip_elements_bounds(s@, start as int, fuel as nat);
        }
    }
    if fuel == 0 {
        return None;
    }
    match skip_value_x(s, start, fuel - 1) {
        Some(jv) => {
            let j2 = skip_ws(s, jv);
            if j2 < s.len() && s[j2] == 0x2c {
                let j3 = skip_ws(s, j2 + 1);
                skip_elements_x(s, j3, fuel - 1)
            } else if j2 < s.len() && s[j2] == 0x5d {
                Some(j2 + 1)
            } else {
                None
            }
        },
        None => None,
    }
}

/// Reads one member value, exactly as `parse_value_for` says.
fn parse_value_x(s: &Vec<u8>, start: usize, code: u8, acc: Part) -> (r: Option<(Part, usize)>)
    requires
        start <= s@.len(),
        1 <= code <= 9,
    ensures
        match parse_value_for(s@, start as int, code, acc@) {
            Some((sacc, sj)) => r matches Some((a2, j)) && a2@ == sacc && j == sj && j <= s@.len(),
            None => r is None,
        },
{
    proof {
        if parse_value_for(s@, start as int, code, acc@) is Some {
            lemma_parse_value_advances(s@, start as int, code, acc@);
        }
    }
    let mut acc = acc;
    if code == 1 {
        if acc.id.is_some() {
            return None;
        }
        match parse_i32_x(s, start) {
            Some((v, j)) => {
                acc.id = Some(v);
                Some((acc, j))
            },
            None => None,
        }
    } else if code == 3 {
        if acc.category_id.is_some() {
            return None;
        }
        match parse_i32_x(s, start) {
            Some((v, j)) => {
                acc.category_id = Some(v);
                Some((acc, j))
            },
            None => None,
        }
    } else if code == 4 {
        if acc.address_id.is_some() {
            return None;
        }
        match parse_i32_x(s, start) {
            Some((v, j)) => {
                acc.address_id = Some(v);
                Some((acc, j))
            },
            None => None,
        }
    } else if code == 5 {
        if acc.latitude.is_some() {
            return None;
        }
        match scan_number_x(s, start) {
            Some(j) => {
                acc.latitude = Some(copy_range(s, start, j));
                Some((acc, j))
            },
            None => None,
        }
    } else if code == 6 {
        if acc.longitude.is_some() {
            return None;
        }
        match scan_number_x(s, start) {
            Some(j) => {
                acc.longitude = Some(copy_range(s, start, j));
                Some((acc, j))
            },
            None => None,
        }
    } else {
        let field: u8 = code;
        let dup = if field == 2 {
            acc.name.is_some()
        } else if field == 7 {
            acc.slug.is_some()
        } else if field == 8 {
            acc.created_at.is_some()
        } else {
            acc.updated_at.is_some()
        };
        if dup {
            return None;
        }
        if start < s.len() && s[start] == 0x22 {
            match scan_string_rest(s, start + 1) {
                Some((t, j)) => {
                    if !check_utf8(&t) {
                        return None;
                    }
                    if field == 2 {
                        acc.name = Some(t);
                    } else if field == 7 {
                        acc.slug = Some(t);
                    } else if field == 8 {
                        acc.created_at = Some(t);
                    } else {
                        acc.updated_at = Some(t);
                    }
                    Some((acc, j))
                },
                None => None,
            }
        } else {
            None
        }
    }
}

/// Reads one member, exactly as `parse_member` says.
fn parse_member_x(s: &Vec<u8>, start: usize, acc: Part) -> (r: Option<(Part, usize)>)
    requires
        start <= s@.len(),
    ensures
        match parse_member(s@, start as int, acc@) {
            Some((sacc, sj)) => r matches Some((a2, j)) && a2@ == sacc && j == sj && start < j
                <= s@.len(),
            None => r is None,
        },
{
    proof {
        if parse_member(s@, start as int, acc@) is Some {
            lemma_parse_member_advances(s@, start as int, acc@);
        }
    }
    if start < s.len() && s[start] == 0x22 {
        match scan_string_rest(s, start + 1) {
            Some((k, j1)) => {
                proof {
                    lemma_parse_string_rest_props(s@, start + 1);
                }
                if !check_utf8(&k) {
                    return None;
                }
                let code = key_code(&k);
                let j2 = skip_ws(s, j1);
                if j2 < s.len() && s[j2] == 0x3a {
                    let j3 = skip_ws(s, j2 + 1);
                    if code == 0 {
                        let fuel: usize = if s.len() < usize::MAX / 2 {
                            2 * s.len() + 2
                        } else {
                            usize::MAX
                        };
                        proof {
                            assert(fuel as nat == skip_fuel(s@));
                        }
                        match skip_value_x(s, j3, fuel) {
                            Some(j4) => Some((acc, j4)),
                            None => None,
                        }
                    } else {
                        parse_value_x(s, j3, code, acc)
                    }
                } else {
                    None
                }
            },
            None => None,
        }
    } else {
        None
    }
}

/// Reads the member list of one object, exactly as `parse_members` says.
fn parse_members_x(s: &Vec<u8>, start: usize, acc: Part, fuel: usize) -> (r: Option<(Poi, usize)>)
    requires
        start <= s@.len(),
    ensures
        match parse_members(s@, start as int, acc@, fuel as nat) {
            Some((sp, sj)) => r matches Some((p, j)) && p@ == sp && j == sj && j <= s@.len(),
            None => r is None,
        },
    decreases fuel,
{
    proof {
        if parse_members(s@, start as int, acc@, fuel as nat) is Some {
            lemma_parse_members_bounds(s@, start as int, acc@, fuel as nat);
        }
    }
    match parse_member_x(s, start, acc) {
        Some((acc2, j)) => {
            let j2 = skip_ws(s, j);
            if j2 < s.len() && s[j2] == 0x2c {
                if fuel == 0 {
                    None
                } else {
                    let j3 = skip_ws(s, j2 + 1);
                    parse_members_x(s, j3, acc2, fuel - 1)
                }
            } else if j2 < s.len() && s[j2] == 0x7d {
                match (acc2.id, acc2.name, acc2.category_id, acc2.address_id, acc2.latitude,
                    acc2.longitude, acc2.slug, acc2.created_at, acc2.updated_at) {
                    (
                        Some(id),
                        Some(name),
                        Some(category_id),
                        Some(address_id),
                        Some(latitude),
                        Some(longitude),
                        Some(slug),
                        Some(created_at),
                        Some(updated_at),
                    ) => Some(
                        (
                            Poi {
                                id,
                                name,
                                category_id,
                                address_id,
                                latitude,
                                longitude,
                                slug,
                                created_at,
                                updated_at,
                            },
                            j2 + 1,
                        ),
                    ),
                    _ => None,
                }
            } else {
                None
            }
        },
        None => None,
    }
}

/// Reads one object, exactly as `parse_object` says.
fn parse_object_x(s: &Vec<u8>, start: usize) -> (r: Option<(Poi, usize)>)
    requires
        start <= s@.len(),
    ensures
        match parse_object(s@, start as int) {
            Some((sp, sj)) => r matches Some((p, j)) && p@ == sp && j == sj && start < j
                <= s@.len(),
            None => r is None,
        },
{
    proof {
        if parse_object(s@, start as int) is Some {
            lemma_parse_object_advances(s@, start as int);
        }
    }
    if start < s.len() && s[start] == 0x7b {
        let j = skip_ws(s, start + 1);
        let acc = Part {
            id: None,
            name: None,
            category_id: None,
            address_id: None,
            latitude: None,
            longitude: None,
            slug: None,
            created_at: None,
            updated_at: None,
        };
        parse_members_x(s, j, acc, s.len())
    } else {
        None
    }
}

/// Reads the items of a nonempty array, exactly as `parse_items` says.
fn parse_items_x(s: &Vec<u8>, start: usize) -> (r: Option<(Vec<Poi>, usize)>)
    requires
        start <= s@.len(),
    ensures
        match parse_items(s@, start as int) {
            Some((sps, sj)) => r matches Some((ps, j)) && views_of(ps@) == sps && j == sj && j
                <= s@.len(),
            None => r is None,
        },
{
    let mut out: Vec<Poi> = Vec::new();
    let mut i: usize = start;
    proof {
        if let Some((sps, sj)) = parse_items(s@, start as int) {
            lemma_parse_items_bounds(s@, start as int);
            assert(views_of(out@) + sps =~= sps);
        }
    }
    loop
        invariant
            start <= i <= s@.len(),
            match parse_items(s@, i as int) {
                Some((sps, sj)) => parse_items(s@, start as int) matches Some((aps, aj))
                    && aps == views_of(out@) + sps && aj == sj && sj <= s@.len(),
                None => parse_items(s@, start as int) is None,
            },
        decreases s@.len() - i,
    {
        match parse_object_x(s, i) {
            Some((p, j)) => {
                let j2 = skip_ws(s, j);
                if j2 < s.len() && s[j2] == 0x2c {
                    let j3 = skip_ws(s, j2 + 1);
                    proof {
                        if let Some((sps, sj)) = parse_items(s@, j3 as int) {
                            assert(parse_items(s@, i as int) == Some(
                                (seq![p@] + sps, sj),
                            ));
                            assert(views_of(out@) + (seq![p@] + sps) =~= views_of(
                                out@.push(p),
                            ) + sps) by {
                                assert(views_of(out@.push(p)) =~= views_of(out@).push(p@));
                            };
                        }
                    }
                    out.push(p);
                    i = j3;
                } else if j2 < s.len() && s[j2] == 0x5d {
                    proof {
                        assert(parse_items(s@, i as int) == Some((seq![p@], j2 + 1)));
                        assert(views_of(out@) + seq![p@] =~= views_of(out@.push(p))) by {
                            assert(views_of(out@.push(p)) =~= views_of(out@).push(p@));
                        };
                    }
                    out.push(p);
                    return Some((out, j2 + 1));
                } else {
                    return None;
                }
            },
            None => {
                return None;
            },
        }
    }
}

/// Decodes a response body as one page of POI records, exactly as
/// `spec_decode` says: `Ok` with the records, in input order, for a body
/// the format accepts, and `Err` for every other body.
pub fn decode_pois(s: &Vec<u8>) -> (r: Result<Vec<Poi>, DecodeError>)
    ensures
        match spec_decode(s@) {
            Some(sps) => r matches Ok(ps) && views_of(ps@) == sps,
            None => r is Err,
        },
{
    let i = skip_ws(s, 0);
    if i < s.len() && s[i] == 0x5b {
        let j = skip_ws(s, i + 1);
        if j < s.len() && s[j] == 0x5d {
            if skip_ws(s, j + 1) == s.len() {
                proof {
                    assert(views_of(Seq::<Poi>::empty()) =~= Seq::<PoiV>::empty());
                }
                Ok(Vec::new())
            } else {
                Err(DecodeError)
            }
        } else {
            match parse_items_x(s, j) {
                Some((ps, j2)) => {
                    if skip_ws(s, j2) == s.len() {
                        Ok(ps)
                    } else {
                        Err(DecodeError)
                    }
                },
                None => Err(DecodeError),
            }
        }
    } else {
        Err(DecodeError)
    }
}

/// A record the encoder can write back out: integers in `i32` range,
/// text free of unescapable control bytes, coordinates that are number
/// lexemes. Every record the decoder produces is of this shape.
pub open spec fn valid_poi(p: PoiV) -> bool {
    &&& i32::MIN <= p.id <= i32::MAX
    &&& i32::MIN <= p.category_id <= i32::MAX
    &&& i32::MIN <= p.address_id <= i32::MAX
    &&& encodable_text(p.name)
    &&& encodable_text(p.slug)
    &&& encodable_text(p.created_at)
    &&& encodable_text(p.updated_at)
    &&& is_utf8(p.name)
    &&& is_utf8(p.slug)
    &&& is_utf8(p.created_at)
    &&& is_utf8(p.updated_at)
    &&& is_number_lexeme(p.latitude)
    &&& is_number_lexeme(p.longitude)
}

pub open spec fn valid_pois(ps: Seq<PoiV>) -> bool {
    forall|k: int| 0 <= k < ps.len() ==> valid_poi(ps[k])
}

/// The literal chunks between the fields of an encoded object, in the
/// order the encoder writes the members.
pub open spec fn lit_obj_id() -> Seq<u8> {
    seq![0x7bu8, 0x22u8, 0x69u8, 0x64u8, 0x22u8, 0x3au8]
}

pub open spec fn lit_name() -> Seq<u8> {
    seq![0x2cu8, 0x22u8, 0x6eu8, 0x61u8, 0x6du8, 0x65u8, 0x22u8, 0x3au8, 0x22u8]
}

pub open spec fn lit_category() -> Seq<u8> {
    seq![0x22u8, 0x2cu8, 0x22u8, 0x63u8, 0x61u8, 0x74u8, 0x65u8, 0x67u8, 0x6fu8, 0x72u8, 0x79u8,
        0x5fu8, 0x69u8, 0x64u8, 0x22u8, 0x3au8]
}

pub open spec fn lit_address() -> Seq<u8> {
    seq![0x2cu8, 0x22u8, 0x61u8, 0x64u8, 0x64u8, 0x72u8, 0x65u8, 0x73u8, 0x73u8, 0x5fu8, 0x69u8,
        0x64u8, 0x22u8, 0x3au8]
}

pub open spec fn lit_latitude() -> Seq<u8> {
    seq![0x2cu8, 0x22u8, 0x6cu8, 0x61u8, 0x74u8, 0x69u8, 0x74u8, 0x75u8, 0x64u8, 0x65u8, 0x22u8,
        0x3au8]
}

pub open spec fn lit_longitude() -> Seq<u8> {
    seq![0x2cu8, 0x22u8, 0x6cu8, 0x6fu8, 0x6eu8, 0x67u8, 0x69u8, 0x74u8, 0x75u8, 0x64u8, 0x65u8,
        0x22u8, 0x3au8]
}

pub open spec fn lit_slug() -> Seq<u8> {
    seq![0x2cu8, 0x22u8, 0x73u8, 0x6cu8, 0x75u8, 0x67u8, 0x22u8, 0x3au8, 0x22u8]
}

pub open spec fn lit_created() -> Seq<u8> {
    seq![0x22u8, 0x2cu8, 0x22u8, 0x63u8, 0x72u8, 0x65u8, 0x61u8, 0x74u8, 0x65u8, 0x64u8, 0x5fu8,
        0x61u8, 0x74u8, 0x22u8, 0x3au8, 0x22u8]
}

pub open spec fn lit_updated() -> Seq<u8> {
    seq![0x22u8, 0x2cu8, 0x22u8, 0x75u8, 0x70u8, 0x64u8, 0x61u8, 0x74u8, 0x65u8, 0x64u8, 0x5fu8,
        0x61u8, 0x74u8, 0x22u8, 0x3au8, 0x22u8]
}

pub open spec fn lit_close() -> Seq<u8> {
    seq![0x22u8, 0x7du8]
}

/// The first half of an encoded record: up to and including the latitude.
pub open spec fn encode_poi_head(p: PoiV) -> Seq<u8> {
    lit_obj_id() + dec_i32(p.id) + lit_name() + escape(p.name) + lit_category() + dec_i32(
        p.category_id,
    ) + lit_address() + dec_i32(p.address_id) + lit_latitude() + p.latitude
}

/// The second half: from the longitude to the closing brace.
pub open spec fn encode_poi_tail(p: PoiV) -> Seq<u8> {
    lit_longitude() + p.longitude + lit_slug() + escape(p.slug) + lit_created() + escape(
        p.created_at,
    ) + lit_updated() + escape(p.updated_at) + lit_close()
}

/// One record as the encoder writes it: the nine members in declaration
/// order, no whitespace.
pub open spec fn encode_poi(p: PoiV) -> Seq<u8> {
    encode_poi_head(p) + encode_poi_tail(p)
}

/// The records of a page, comma-separated.
pub open spec fn encode_items(ps: Seq<PoiV>) -> Seq<u8>
    decreases ps.len(),
{
    if ps.len() == 0 {
        Seq::empty()
    } else if ps.len() == 1 {
        encode_poi(ps[0])
    } else {
        encode_poi(ps[0]) + seq![0x2cu8] + encode_items(ps.drop_first())
    }
}

/// A whole page as the encoder writes it.
pub open spec fn spec_encode(ps: Seq<PoiV>) -> Seq<u8> {
    seq![0x5bu8] + encode_items(ps) + seq![0x5du8]
}

/// Encoding one record more extends the item run at its end.
pub proof fn lemma_encode_items_push(ps: Seq<PoiV>, p: PoiV)
    ensures
        encode_items(ps.push(p)) == if ps.len() == 0 {
            encode_poi(p)
        } else {
            encode_items(ps) + seq![0x2cu8] + encode_poi(p)
        },
    decreases ps.len(),
{
    let q = ps.push(p);
    if ps.len() == 0 {
        assert(q.len() == 1);
        assert(q[0] == p);
    } else {
        assert(q[0] == ps[0]);
        assert(q.drop_first() =~= ps.drop_first().push(p));
        lemma_encode_items_push(ps.drop_first(), p);
        if ps.len() == 1 {
            assert(encode_items(q) == encode_poi(ps[0]) + seq![0x2cu8] + encode_poi(p));
            assert(encode_items(ps) == encode_poi(ps[0]));
        } else {
            assert(encode_items(q) =~= encode_items(ps) + seq![0x2cu8] + encode_poi(p));
        }
    }
}

/// Appends the bytes of `v` to `out`.
fn push_bytes(out: &mut Vec<u8>, v: &Vec<u8>)
    ensures
        final(out)@ == old(out)@ + v@,
{
    let ghost out0 = out@;
    let mut k: usize = 0;
    while k < v.len()
        invariant
            k <= v.len(),
            out@ == out0 + v@.subrange(0, k as int),
        decreases v.len() - k,
    {
        out.push(v[k]);
        proof {
            assert(v@.subrange(0, k + 1) =~= v@.subrange(0, k as int).push(v@[k as int]));
            assert(out@ =~= out0 + v@.subrange(0, k + 1));
        }
        k = k + 1;
    }
    proof {
        assert(v@.subrange(0, v@.len() as int) =~= v@);
    }
}
/// Writes the first half of a record, exactly as `encode_poi_head` says.
fn push_poi_head(out: &mut Vec<u8>, p: &Poi)
    requires
        valid_poi(p@),
    ensures
        final(out)@ == old(out)@ + encode_poi_head(p@),
{
    let ghost o0 = out@;
    let l1: Vec<u8> = vec![0x7bu8, 0x22, 0x69, 0x64, 0x22, 0x3a];
    assert(l1@ =~= lit_obj_id());
    push_bytes(out, &l1);
    crate::num::push_dec_i32(out, p.id);
    assert(out@ =~= o0 + (lit_obj_id() + dec_i32(p@.id)));
    let l2: Vec<u8> = vec![0x2cu8, 0x22, 0x6e, 0x61, 0x6d, 0x65, 0x22, 0x3a, 0x22];
    assert(l2@ =~= lit_name());
    push_bytes(out, &l2);
    assert(out@ =~= o0 + (lit_obj_id() + dec_i32(p@.id) + lit_name()));
    push_escaped(out, &p.name);
    assert(out@ =~= o0 + (lit_obj_id() + dec_i32(p@.id) + lit_name() + escape(p@.name)));
    let l3: Vec<u8> = vec![0x22u8, 0x2c, 0x22, 0x63, 0x61, 0x74, 0x65, 0x67, 0x6f, 0x72, 0x79,
        0x5f, 0x69, 0x64, 0x22, 0x3a];
    assert(l3@ =~= lit_category());
    push_bytes(out, &l3);
    crate::num::push_dec_i32(out, p.category_id);
    assert(out@ =~= o0 + (lit_obj_id() + dec_i32(p@.id) + lit_name() + escape(p@.name)
        + lit_category() + dec_i32(p@.category_id)));
    let l4: Vec<u8> = vec![0x2cu8, 0x22, 0x61, 0x64, 0x64, 0x72, 0x65, 0x73, 0x73, 0x5f, 0x69,
        0x64, 0x22, 0x3a];
    assert(l4@ =~= lit_address());
    push_bytes(out, &l4);
    crate::num::push_dec_i32(out, p.address_id);
    assert(out@ =~= o0 + (lit_obj_id() + dec_i32(p@.id) + lit_name() + escape(p@.name)
        + lit_category() + dec_i32(p@.category_id) + lit_address() + dec_i32(p@.address_id)));
    let l5: Vec<u8> = vec![0x2cu8, 0x22, 0x6c, 0x61, 0x74, 0x69, 0x74, 0x75, 0x64, 0x65, 0x22,
        0x3a];
    assert(l5@ =~= lit_latitude());
    push_bytes(out, &l5);
    push_bytes(out, &p.latitude);
    assert(out@ =~= o0 + encode_poi_head(p@));
}

/// Writes the second half of a record, exactly as `encode_poi_tail` says.
fn push_poi_tail(out: &mut Vec<u8>, p: &Poi)
    requires
        valid_poi(p@),
    ensures
        final(out)@ == old(out)@ + encode_poi_tail(p@),
{
    let ghost o0 = out@;
    let l1: Vec<u8> = vec![0x2cu8, 0x22, 0x6c, 0x6f, 0x6e, 0x67, 0x69, 0x74, 0x75, 0x64, 0x65,
        0x22, 0x3a];
    assert(l1@ =~= lit_longitude());
    push_bytes(out, &l1);
    push_bytes(out, &p.longitude);
    assert(out@ =~= o0 + (lit_longitude() + p@.longitude));
    let l2: Vec<u8> = vec![0x2cu8, 0x22, 0x73, 0x6c, 0x75, 0x67, 0x22, 0x3a, 0x22];
    assert(l2@ =~= lit_slug());
    push_bytes(out, &l2);
    push_escaped(out, &p.slug);
    assert(out@ =~= o0 + (lit_longitude() + p@.longitude + lit_slug() + escape(p@.slug)));
    let l3: Vec<u8> = vec![0x22u8, 0x2c, 0x22, 0x63, 0x72, 0x65, 0x61, 0x74, 0x65, 0x64, 0x5f,
        0x61, 0x74, 0x22, 0x3a, 0x22];
    assert(l3@ =~= lit_created());
    push_bytes(out, &l3);
    push_escaped(out, &p.created_at);
    assert(out@ =~= o0 + (lit_longitude() + p@.longitude + lit_slug() + escape(p@.slug)
        + lit_created() + escape(p@.created_at)));
    let l4: Vec<u8> = vec![0x22u8, 0x2c, 0x22, 0x75, 0x70, 0x64, 0x61, 0x74, 0x65, 0x64, 0x5f,
        0x61, 0x74, 0x22, 0x3a, 0x22];
    assert(l4@ =~= lit_updated());
    push_bytes(out, &l4);
    push_escaped(out, &p.updated_at);
    assert(out@ =~= o0 + (lit_longitude() + p@.longitude + lit_slug() + escape(p@.slug)
        + lit_created() + escape(p@.created_at) + lit_updated() + escape(p@.updated_at)));
    let l5: Vec<u8> = vec![0x22u8, 0x7d];
    assert(l5@ =~= lit_close());
    push_bytes(out, &l5);
    assert(out@ =~= o0 + encode_poi_tail(p@));
}
fn push_poi(out: &mut Vec<u8>, p: &Poi)
    requires
        valid_poi(p@),
    ensures
        final(out)@ == old(out)@ + encode_poi(p@),
{
    let ghost o0 = out@;
    push_poi_head(out, p);
    push_poi_tail(out, p);
    assert(out@ =~= o0 + encode_poi(p@));
}

/// Writes a page of records, exactly as `spec_encode` says: the wire form
/// that `decode_pois` reads back unchanged.
pub fn encode_pois(ps: &Vec<Poi>) -> (r: Vec<u8>)
    requires
        valid_pois(views_of(ps@)),
    ensures
        r@ == spec_encode(views_of(ps@)),
{
    let mut out: Vec<u8> = Vec::new();
    out.push(0x5b);
    let mut k: usize = 0;
    proof {
        assert(views_of(ps@.subrange(0, 0)) =~= Seq::<PoiV>::empty());
        assert(out@ =~= seq![0x5bu8] + encode_items(views_of(ps@.subrange(0, 0))));
    }
    while k < ps.len()
        invariant
            k <= ps@.len(),
            valid_pois(views_of(ps@)),
            out@ == seq![0x5bu8] + encode_items(views_of(ps@.subrange(0, k as int))),
        decreases ps@.len() - k,
    {
        proof {
            assert(views_of(ps@)[k as int] == ps@[k as int]@);
            assert(valid_poi(ps@[k as int]@));
        }
        let ghost pre = views_of(ps@.subrange(0, k as int));
        if k > 0 {
            out.push(0x2c);
        }
        push_poi(&mut out, &ps[k]);
        proof {
            lemma_encode_items_push(pre, ps@[k as int]@);
            assert(views_of(ps@.subrange(0, k + 1)) =~= pre.push(ps@[k as int]@));
            if k == 0 {
                assert(pre.len() == 0);
                assert(out@ =~= seq![0x5bu8] + encode_items(views_of(ps@.subrange(0, k + 1))));
            } else {
                assert(pre.len() == k);
                assert(out@ =~= seq![0x5bu8] + encode_items(views_of(ps@.subrange(0, k + 1))));
            }
        }
        k = k + 1;
    }
    out.push(0x5d);
    proof {
        assert(ps@.subrange(0, ps@.len() as int) =~= ps@);
        assert(out@ =~= spec_encode(views_of(ps@)));
    }
    out
}

} // verus!
