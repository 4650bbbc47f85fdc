//! The round-trip law of the wire format: a page of valid records, written
//! by the encoder, is read back by the decoder unchanged, field for field.

use vstd::prelude::*;

use crate::codec::{
    is_number_lexeme, parse_i32_num, scan_exp, scan_frac, scan_int_part, scan_number,
};
use crate::num::{
    dec_i32, dec_nat, digits_end, digits_val, is_digit, lemma_dec_nat_shape, lemma_digits_end,
    lemma_digits_end_exact, lemma_digits_val_of_dec,
};
use crate::poi::PoiV;
use crate::text::{encodable_text, escape, is_plain, lemma_parse_of_escape, parse_string_rest};

verus! {

/// A region known to hold `a + b` splits into a region for `a` and one
/// for `b`.
pub proof fn lemma_region_split(s: Seq<u8>, i: int, a: Seq<u8>, b: Seq<u8>)
    requires
        0 <= i,
        i + a.len() + b.len() <= s.len(),
        s.subrange(i, i + a.len() + b.len()) == a + b,
    ensures
        s.subrange(i, i + a.len()) == a,
        s.subrange(i + a.len(), i + a.len() + b.len()) == b,
{
    let whole = s.subrange(i, i + a.len() + b.len());
    assert(s.subrange(i, i + a.len()) =~= a) by {
        assert forall|k: int| 0 <= k < a.len() implies #[trigger] s.subrange(
            i,
            i + a.len(),
        )[k] == a[k] by {
            assert(s.subrange(i, i + a.len())[k] == s[i + k]);
            assert(s[i + k] == whole[k]);
            assert(whole[k] == (a + b)[k]);
        };
    };
    assert(s.subrange(i + a.len(), i + a.len() + b.len()) =~= b) by {
        assert forall|k: int| 0 <= k < b.len() implies #[trigger] s.subrange(
            i + a.len(),
            i + a.len() + b.len(),
        )[k] == b[k] by {
            assert(s.subrange(i + a.len(), i + a.len() + b.len())[k] == s[i + a.len() + k]);
            assert(s[i + a.len() + k] == whole[a.len() + k]);
            assert(whole[a.len() + k] == (a + b)[a.len() + k]);
        };
    };
}

/// Text with nothing to escape passes through the escaper unchanged.
pub proof fn lemma_escape_plain(t: Seq<u8>)
    requires
        forall|k: int| 0 <= k < t.len() ==> is_plain(t[k]),
    ensures
        escape(t) == t,
    decreases t.len(),
{
    if t.len() == 0 {
        assert(escape(t) =~= t);
    } else {
        assert(is_plain(t[0]));
        lemma_escape_plain(t.subrange(1, t.len() as int));
        assert(escape(t) =~= t);
    }
}

/// Reading back an embedded numeral returns its value: the digits of
/// `dec_i32(v)`, followed by a non-digit, parse to `v` exactly.
pub proof fn lemma_parse_i32_of_dec(s: Seq<u8>, i: int, v: int)
    requires
        i32::MIN <= v <= i32::MAX,
        0 <= i,
        i + dec_i32(v).len() < s.len(),
        s.subrange(i, i + dec_i32(v).len()) == dec_i32(v),
        !is_digit(s[i + dec_i32(v).len()]),
    ensures
        parse_i32_num(s, i) == Some((v, i + dec_i32(v).len())),
{
    let e = dec_i32(v);
    let end = i + e.len();
    assert(forall|k: int| 0 <= k < e.len() ==> s[i + k] == #[trigger] e[k]) by {
        assert(forall|k: int| 0 <= k < e.len() ==> #[trigger] e[k] == s.subrange(i, end)[k]);
        assert(forall|k: int| 0 <= k < e.len() ==> s.subrange(i, end)[k] == s[i + k]);
    };
    if v < 0 {
        let m = (-v) as nat;
        lemma_dec_nat_shape(m);
        assert(e[0] == 0x2d);
        assert(s[i] == e[0]);
        let i1 = i + 1;
        assert(s.subrange(i1, end) =~= dec_nat(m)) by {
            assert(forall|k: int| 0 <= k < dec_nat(m).len() ==> #[trigger] s.subrange(
                i1,
                end,
            )[k] == s[i1 + k]);
            assert(forall|k: int| 0 <= k < dec_nat(m).len() ==> #[trigger] dec_nat(m)[k] == e[
                1 + k]);
        };
        assert(forall|k: int| i1 <= k < end ==> is_digit(#[trigger] s[k])) by {
            assert(forall|k: int| i1 <= k < end ==> #[trigger] s[k] == s.subrange(i1, end)[k
                - i1]);
        };
        lemma_digits_end_exact(s, i1, end);
        lemma_digits_val_of_dec(s, i1, end, m);
        assert(s[i1] == dec_nat(m)[0]);
        assert(m != 0);
        if s[i1] == 0x30 {
            assert(false);
        }
        assert(scan_int_part(s, i1) == Some(end));
        assert(parse_i32_num(s, i) == Some((v, end)));
    } else {
        let m = v as nat;
        lemma_dec_nat_shape(m);
        assert(s.subrange(i, end) =~= dec_nat(m));
        assert(forall|k: int| i <= k < end ==> is_digit(#[trigger] s[k])) by {
            assert(forall|k: int| i <= k < end ==> #[trigger] s[k] == s.subrange(i, end)[k - i]);
        };
        lemma_digits_end_exact(s, i, end);
        lemma_digits_val_of_dec(s, i, end, m);
        assert(s[i] == dec_nat(m)[0]);
        assert(s[i] != 0x2d);
        if m == 0 {
            assert(s[i] == 0x30);
            assert(dec_nat(m).len() == 1);
            assert(scan_int_part(s, i) == Some(i + 1));
            assert(digits_val(s, i, i + 1) == 0);
            assert(parse_i32_num(s, i) == Some((v, end)));
        } else {
            assert(s[i] != 0x30);
            assert(scan_int_part(s, i) == Some(end));
            assert(parse_i32_num(s, i) == Some((v, end)));
        }
    }
}

/// A digit run embedded at an offset ends at the embedded image of where
/// it ends in the original.
pub proof fn lemma_digits_end_embed(s: Seq<u8>, i: int, t: Seq<u8>, p: int)
    requires
        0 <= i,
        0 <= p <= t.len(),
        i + t.len() < s.len(),
        s.subrange(i, i + t.len()) == t,
        !is_digit(s[i + t.len()]),
    ensures
        digits_end(s, i + p) == i + digits_end(t, p),
{
    let q = digits_end(t, p);
    lemma_digits_end(t, p);
    assert(forall|k: int| 0 <= k < t.len() ==> s[i + k] == #[trigger] t[k]) by {
        assert(forall|k: int| 0 <= k < t.len() ==> #[trigger] t[k] == s.subrange(
            i,
            i + t.len(),
        )[k]);
        assert(forall|k: int| 0 <= k < t.len() ==> #[trigger] s.subrange(i, i + t.len())[k] == s[i + k]);
    };
    assert(forall|k: int| i + p <= k < i + q ==> is_digit(#[trigger] s[k])) by {
        assert(forall|k: int| i + p <= k < i + q ==> #[trigger] s[k] == t[k - i]);
    };
    if q < t.len() {
        assert(s[i + q] == t[q]);
        assert(!is_digit(s[i + q]));
    } else {
        assert(!is_digit(s[i + q]));
    }
    lemma_digits_end_exact(s, i + p, i + q);
}

/// Reading back an embedded number lexeme consumes exactly the lexeme:
/// what follows must not look like more number.
pub proof fn lemma_scan_number_embed(s: Seq<u8>, i: int, t: Seq<u8>)
    requires
        is_number_lexeme(t),
        0 <= i,
        i + t.len() < s.len(),
        s.subrange(i, i + t.len()) == t,
        !is_digit(s[i + t.len()]),
        s[i + t.len()] != 0x2e,
        s[i + t.len()] != 0x65,
        s[i + t.len()] != 0x45,
    ensures
        scan_number(s, i) == Some(i + t.len()),
{
    let n = t.len() as int;
    let c = s[i + n];
    assert(forall|k: int| 0 <= k < n ==> s[i + k] == #[trigger] t[k]) by {
        assert(forall|k: int| 0 <= k < n ==> #[trigger] t[k] == s.subrange(i, i + n)[k]);
        assert(forall|k: int| 0 <= k < n ==> #[trigger] s.subrange(i, i + n)[k] == s[i + k]);
    };
    // walk the lexeme's own scan, which must reach its end
    let l1: int = if 0 < n && t[0] == 0x2d {
        1
    } else {
        0
    };
    assert(scan_int_part(t, l1) is Some);
    let l2 = scan_int_part(t, l1).unwrap();
    lemma_digits_end(t, l1);
    assert(0 <= l1 <= l2 <= n);
    assert(scan_frac(t, l2) is Some);
    let l3 = scan_frac(t, l2).unwrap();
    if l2 < n && t[l2] == 0x2e {
        lemma_digits_end(t, l2 + 1);
    }
    assert(scan_exp(t, l3) == Some(n));
    assert(0 <= l2 <= l3 <= n);
    assert(t.len() > 0);
    // the sign
    assert(s[i] == t[0]);
    let i1 = i + l1;
    // the integer part
    if t[l1] == 0x30 {
        assert(s[i1] == 0x30);
        assert(scan_int_part(s, i1) == Some(i1 + 1));
        assert(l2 == l1 + 1);
    } else {
        assert(is_digit(t[l1]));
        assert(s[i1] == t[l1]);
        lemma_digits_end_embed(s, i, t, l1);
        assert(scan_int_part(s, i1) == Some(i + l2));
    }
    let i2 = i + l2;
    // the fraction part
    if l2 < n && t[l2] == 0x2e {
        assert(s[i2] == 0x2e);
        assert(l2 + 1 < n && is_digit(t[l2 + 1]));
        assert(s[i2 + 1] == t[l2 + 1]);
        lemma_digits_end_embed(s, i, t, l2 + 1);
        assert(scan_frac(s, i2) == Some(i + l3));
    } else {
        if l2 < n {
            assert(s[i2] == t[l2]);
            assert(t[l2] != 0x2e);
        } else {
            assert(s[i2] == c);
        }
        assert(scan_frac(s, i2) == Some(i2));
        assert(l3 == l2);
    }
    let i3 = i + l3;
    // the exponent part
    if l3 < n && (t[l3] == 0x65 || t[l3] == 0x45) {
        assert(s[i3] == t[l3]);
        let lj: int = if l3 + 1 < n && (t[l3 + 1] == 0x2b || t[l3 + 1] == 0x2d) {
            l3 + 2
        } else {
            l3 + 1
        };
        assert(lj < n && is_digit(t[lj]));
        if l3 + 1 < n {
            assert(s[i3 + 1] == t[l3 + 1]);
        } else {
            assert(s[i3 + 1] == c);
        }
        assert(s[i + lj] == t[lj]);
        lemma_digits_end_embed(s, i, t, lj);
        assert(digits_end(t, lj) == n);
        assert(scan_exp(s, i3) == Some(i + n));
    } else {
        if l3 < n {
            assert(s[i3] == t[l3]);
        } else {
            assert(s[i3] == c);
        }
        assert(scan_exp(s, i3) == Some(i3));
        assert(l3 == n);
    }
    assert(scan_number(s, i) == Some(i + n));
}

/// A piece of a known region is the matching piece of its contents.
pub proof fn lemma_subregion(s: Seq<u8>, a: int, b: int, c: int, d: int, t: Seq<u8>)
    requires
        0 <= c <= a <= b <= d <= s.len(),
        d - c == t.len(),
        s.subrange(c, d) == t,
    ensures
        s.subrange(a, b) == t.subrange(a - c, b - c),
{
    assert(s.subrange(a, b) =~= t.subrange(a - c, b - c)) by {
        assert forall|k: int| 0 <= k < b - a implies #[trigger] s.subrange(a, b)[k]
            == t.subrange(a - c, b - c)[k] by {
            assert(s.subrange(a, b)[k] == s[a + k]);
            assert(s[a + k] == s.subrange(c, d)[a - c + k]);
        };
    };
}

/// A region followed by one known byte is the region of the contents with
/// that byte appended.
pub proof fn lemma_region_push_byte(s: Seq<u8>, a: int, b: int, t: Seq<u8>, c: u8)
    requires
        0 <= a <= b < s.len(),
        b - a == t.len(),
        s.subrange(a, b) == t,
        s[b] == c,
    ensures
        s.subrange(a, b + 1) == t.push(c),
{
    assert(s.subrange(a, b + 1) =~= t.push(c)) by {
        assert forall|k: int| 0 <= k < b + 1 - a implies #[trigger] s.subrange(a, b + 1)[k]
            == t.push(c)[k] by {
            assert(s.subrange(a, b + 1)[k] == s[a + k]);
            if k < b - a {
                assert(s[a + k] == s.subrange(a, b)[k]);
            }
        };
    };
}

/// One byte of a known region.
pub proof fn lemma_region_byte(s: Seq<u8>, a: int, b: int, t: Seq<u8>, k: int)
    requires
        0 <= a <= b <= s.len(),
        b - a == t.len(),
        s.subrange(a, b) == t,
        0 <= k < t.len(),
    ensures
        s[a + k] == t[k],
{
    assert(s[a + k] == s.subrange(a, b)[k]);
}

/// Reading a member whose `"key":` part sits plainly in the input comes
/// down to reading its value: the key is known and valid text, the colon
/// follows it, and the value begins right after.
pub proof fn lemma_member_prefix(s: Seq<u8>, i: int, key: Seq<u8>, acc: crate::codec::PartV)
    requires
        key.len() > 0,
        forall|k: int| 0 <= k < key.len() ==> is_plain(key[k]),
        forall|k: int| 0 <= k < key.len() ==> key[k] < 0x80,
        crate::codec::key_code_spec(key) != 0,
        0 <= i,
        i + key.len() + 3 < s.len(),
        s.subrange(i, i + key.len() + 3) == seq![0x22u8] + key + seq![0x22u8, 0x3au8],
        !crate::codec::is_ws(s[i + key.len() + 3]),
    ensures
        crate::codec::parse_member(s, i, acc) == crate::codec::parse_value_for(
            s,
            i + key.len() + 3,
            crate::codec::key_code_spec(key),
            acc,
        ),
{
    let r = seq![0x22u8] + key + seq![0x22u8, 0x3au8];
    let rend = i + key.len() + 3;
    lemma_region_byte(s, i, rend, r, 0);
    assert(s[i] == 0x22);
    lemma_escape_plain(key);
    crate::text::lemma_ascii_utf8(key);
    lemma_subregion(s, i + 1, i + 2 + key.len() as int, i, rend, r);
    assert(r.subrange(1, 2 + key.len() as int) =~= key.push(0x22u8));
    lemma_parse_of_escape(s, i + 1, key);
    assert(parse_string_rest(s, i + 1) == Some((key, i + key.len() + 2)));
    let j1 = i + key.len() + 2;
    lemma_region_byte(s, i, rend, r, key.len() + 2 as int);
    assert(s[j1] == 0x3a);
    assert(crate::codec::ws_end(s, j1) == j1);
    assert(crate::codec::ws_end(s, j1 + 1) == j1 + 1);
}

/// A numeral starts with a minus sign or a digit, never whitespace.
pub proof fn lemma_dec_i32_shape(v: int)
    ensures
        dec_i32(v).len() >= 1,
        !crate::codec::is_ws(dec_i32(v)[0]),
{
    if v < 0 {
        lemma_dec_nat_shape((-v) as nat);
    } else {
        lemma_dec_nat_shape(v as nat);
    }
}

/// A number lexeme starts with a minus sign or a digit, never whitespace.
pub proof fn lemma_lexeme_shape(t: Seq<u8>)
    requires
        is_number_lexeme(t),
    ensures
        t.len() >= 1,
        !crate::codec::is_ws(t[0]),
{
    let l1: int = if 0 < t.len() && t[0] == 0x2d {
        1
    } else {
        0
    };
    assert(scan_int_part(t, l1) is Some);
    if t.len() == 0 {
        assert(false);
    }
    if t[0] != 0x2d {
        assert(is_digit(t[0]) || t[0] == 0x30);
    }
}

/// Reading back the embedded `id` member records its value.
proof fn lemma_member_id(s: Seq<u8>, i: int, v: int, acc: crate::codec::PartV)
    requires
        i32::MIN <= v <= i32::MAX,
        0 <= i,
        s.subrange(i, i + 5) == seq![0x22u8] + crate::codec::key_id() + seq![0x22u8, 0x3au8],
        i + 5 + dec_i32(v).len() < s.len(),
        s.subrange(i + 5, i + 5 + dec_i32(v).len()) == dec_i32(v),
        !is_digit(s[i + 5 + dec_i32(v).len()]),
        acc.id is None,
    ensures
        crate::codec::parse_member(s, i, acc) == Some(
            (crate::codec::PartV { id: Some(v), ..acc }, i + 5 + dec_i32(v).len()),
        ),
{
    let key = crate::codec::key_id();
    assert(forall|k: int| 0 <= k < key.len() ==> is_plain(#[trigger] key[k]));
    assert(forall|k: int| 0 <= k < key.len() ==> #[trigger] key[k] < 0x80);
    assert(crate::codec::key_code_spec(key) == 1);
    let vpos = i + 5;
    lemma_dec_i32_shape(v);
    lemma_region_byte(s, vpos, vpos + dec_i32(v).len(), dec_i32(v), 0);
    lemma_member_prefix(s, i, key, acc);
    lemma_parse_i32_of_dec(s, vpos, v);
    assert(crate::codec::parse_value_for(s, vpos, 1, acc) == Some(
        (crate::codec::PartV { id: Some(v), ..acc }, vpos + dec_i32(v).len()),
    ));
}

/// Reading back the embedded `category_id` member records its value.
proof fn lemma_member_category_id(s: Seq<u8>, i: int, v: int, acc: crate::codec::PartV)
    requires
        i32::MIN <= v <= i32::MAX,
        0 <= i,
        s.subrange(i, i + 14) == seq![0x22u8] + crate::codec::key_category_id() + seq![0x22u8, 0x3au8],
        i + 14 + dec_i32(v).len() < s.len(),
        s.subrange(i + 14, i + 14 + dec_i32(v).len()) == dec_i32(v),
        !is_digit(s[i + 14 + dec_i32(v).len()]),
        acc.category_id is None,
    ensures
        crate::codec::parse_member(s, i, acc) == Some(
            (crate::codec::PartV { category_id: Some(v), ..acc }, i + 14 + dec_i32(v).len()),
        ),
{
    let key = crate::codec::key_category_id();
    assert(forall|k: int| 0 <= k < key.len() ==> is_plain(#[trigger] key[k]));
    assert(forall|k: int| 0 <= k < key.len() ==> #[trigger] key[k] < 0x80);
    assert(crate::codec::key_code_spec(key) == 3);
    let vpos = i + 14;
    lemma_dec_i32_shape(v);
    lemma_region_byte(s, vpos, vpos + dec_i32(v).len(), dec_i32(v), 0);
    lemma_member_prefix(s, i, key, acc);
    lemma_parse_i32_of_dec(s, vpos, v);
    assert(crate::codec::parse_value_for(s, vpos, 3, acc) == Some(
        (crate::codec::PartV { category_id: Some(v), ..acc }, vpos + dec_i32(v).len()),
    ));
}

/// Reading back the embedded `address_id` member records its value.
proof fn lemma_member_address_id(s: Seq<u8>, i: int, v: int, acc: crate::codec::PartV)
    requires
        i32::MIN <= v <= i32::MAX,
        0 <= i,
        s.subrange(i, i + 13) == seq![0x22u8] + crate::codec::key_address_id() + seq![0x22u8, 0x3au8],
        i + 13 + dec_i32(v).len() < s.len(),
        s.subrange(i + 13, i + 13 + dec_i32(v).len()) == dec_i32(v),
        !is_digit(s[i + 13 + dec_i32(v).len()]),
        acc.address_id is None,
    ensures
        crate::codec::parse_member(s, i, acc) == Some(
            (crate::codec::PartV { address_id: Some(v), ..acc }, i + 13 + dec_i32(v).len()),
        ),
{
    let key = crate::codec::key_address_id();
    assert(forall|k: int| 0 <= k < key.len() ==> is_plain(#[trigger] key[k]));
    assert(forall|k: int| 0 <= k < key.len() ==> #[trigger] key[k] < 0x80);
    assert(crate::codec::key_code_spec(key) == 4);
    let vpos = i + 13;
    lemma_dec_i32_shape(v);
    lemma_region_byte(s, vpos, vpos + dec_i32(v).len(), dec_i32(v), 0);
    lemma_member_prefix(s, i, key, acc);
    lemma_parse_i32_of_dec(s, vpos, v);
    assert(crate::codec::parse_value_for(s, vpos, 4, acc) == Some(
        (crate::codec::PartV { address_id: Some(v), ..acc }, vpos + dec_i32(v).len()),
    ));
}

/// Reading back the embedded `latitude` member records its lexeme.
proof fn lemma_member_latitude(s: Seq<u8>, i: int, t: Seq<u8>, acc: crate::codec::PartV)
    requires
        is_number_lexeme(t),
        0 <= i,
        s.subrange(i, i + 11) == seq![0x22u8] + crate::codec::key_latitude() + seq![0x22u8, 0x3au8],
        i + 11 + t.len() < s.len(),
        s.subrange(i + 11, i + 11 + t.len()) == t,
        !is_digit(s[i + 11 + t.len()]),
        s[i + 11 + t.len()] != 0x2e,
        s[i + 11 + t.len()] != 0x65,
        s[i + 11 + t.len()] != 0x45,
        acc.latitude is None,
    ensures
        crate::codec::parse_member(s, i, acc) == Some(
            (crate::codec::PartV { latitude: Some(t), ..acc }, i + 11 + t.len()),
        ),
{
    let key = crate::codec::key_latitude();
    assert(forall|k: int| 0 <= k < key.len() ==> is_plain(#[trigger] key[k]));
    assert(forall|k: int| 0 <= k < key.len() ==> #[trigger] key[k] < 0x80);
    assert(crate::codec::key_code_spec(key) == 5);
    let vpos = i + 11;
    lemma_lexeme_shape(t);
    lemma_region_byte(s, vpos, vpos + t.len(), t, 0);
    lemma_member_prefix(s, i, key, acc);
    lemma_scan_number_embed(s, vpos, t);
    assert(crate::codec::parse_value_for(s, vpos, 5, acc) == Some(
        (crate::codec::PartV { latitude: Some(s.subrange(vpos, vpos + t.len())), ..acc }, vpos + t.len()),
    ));
}

/// Reading back the embedded `longitude` member records its lexeme.
proof fn lemma_member_longitude(s: Seq<u8>, i: int, t: Seq<u8>, acc: crate::codec::PartV)
    requires
        is_number_lexeme(t),
        0 <= i,
        s.subrange(i, i + 12) == seq![0x22u8] + crate::codec::key_longitude() + seq![0x22u8, 0x3au8],
        i + 12 + t.len() < s.len(),
        s.subrange(i + 12, i + 12 + t.len()) == t,
        !is_digit(s[i + 12 + t.len()]),
        s[i + 12 + t.len()] != 0x2e,
        s[i + 12 + t.len()] != 0x65,
        s[i + 12 + t.len()] != 0x45,
        acc.longitude is None,
    ensures
        crate::codec::parse_member(s, i, acc) == Some(
            (crate::codec::PartV { longitude: Some(t), ..acc }, i + 12 + t.len()),
        ),
{
    let key = crate::codec::key_longitude();
    assert(forall|k: int| 0 <= k < key.len() ==> is_plain(#[trigger] key[k]));
    assert(forall|k: int| 0 <= k < key.len() ==> #[trigger] key[k] < 0x80);
    assert(crate::codec::key_code_spec(key) == 6);
    let vpos = i + 12;
    lemma_lexeme_shape(t);
    lemma_region_byte(s, vpos, vpos + t.len(), t, 0);
    lemma_member_prefix(s, i, key, acc);
    lemma_scan_number_embed(s, vpos, t);
    assert(crate::codec::parse_value_for(s, vpos, 6, acc) == Some(
        (crate::codec::PartV { longitude: Some(s.subrange(vpos, vpos + t.len())), ..acc }, vpos + t.len()),
    ));
}

/// Reading back the embedded `name` member records its decoded text.
proof fn lemma_member_name(s: Seq<u8>, i: int, t: Seq<u8>, acc: crate::codec::PartV)
    requires
        encodable_text(t),
        crate::text::is_utf8(t),
        0 <= i,
        s.subrange(i, i + 7) == seq![0x22u8] + crate::codec::key_name() + seq![0x22u8, 0x3au8],
        i + 7 < s.len(),
        s[i + 7] == 0x22,
        i + 8 + escape(t).len() < s.len(),
        s.subrange(i + 8, i + 8 + escape(t).len()) == escape(t),
        s[i + 8 + escape(t).len()] == 0x22,
        acc.name is None,
    ensures
        crate::codec::parse_member(s, i, acc) == Some(
            (crate::codec::PartV { name: Some(t), ..acc }, i + 8 + escape(t).len() + 1),
        ),
{
    let key = crate::codec::key_name();
    assert(forall|k: int| 0 <= k < key.len() ==> is_plain(#[trigger] key[k]));
    assert(forall|k: int| 0 <= k < key.len() ==> #[trigger] key[k] < 0x80);
    assert(crate::codec::key_code_spec(key) == 2);
    let vpos = i + 7;
    let vq = i + 8;
    lemma_member_prefix(s, i, key, acc);
    lemma_region_push_byte(s, vq, vq + escape(t).len(), escape(t), 0x22);
    lemma_parse_of_escape(s, vq, t);
    assert(crate::codec::parse_value_for(s, vpos, 2, acc) == Some(
        (crate::codec::PartV { name: Some(t), ..acc }, vq + escape(t).len() + 1),
    ));
}

/// Reading back the embedded `slug` member records its decoded text.
proof fn lemma_member_slug(s: Seq<u8>, i: int, t: Seq<u8>, acc: crate::codec::PartV)
    requires
        encodable_text(t),
        crate::text::is_utf8(t),
        0 <= i,
        s.subrange(i, i + 7) == seq![0x22u8] + crate::codec::key_slug() + seq![0x22u8, 0x3au8],
        i + 7 < s.len(),
        s[i + 7] == 0x22,
        i + 8 + escape(t).len() < s.len(),
        s.subrange(i + 8, i + 8 + escape(t).len()) == escape(t),
        s[i + 8 + escape(t).len()] == 0x22,
        acc.slug is None,
    ensures
        crate::codec::parse_member(s, i, acc) == Some(
            (crate::codec::PartV { slug: Some(t), ..acc }, i + 8 + escape(t).len() + 1),
        ),
{
    let key = crate::codec::key_slug();
    assert(forall|k: int| 0 <= k < key.len() ==> is_plain(#[trigger] key[k]));
    assert(forall|k: int| 0 <= k < key.len() ==> #[trigger] key[k] < 0x80);
    assert(crate::codec::key_code_spec(key) == 7);
    let vpos = i + 7;
    let vq = i + 8;
    lemma_member_prefix(s, i, key, acc);
    lemma_region_push_byte(s, vq, vq + escape(t).len(), escape(t), 0x22);
    lemma_parse_of_escape(s, vq, t);
    assert(crate::codec::parse_value_for(s, vpos, 7, acc) == Some(
        (crate::codec::PartV { slug: Some(t), ..acc }, vq + escape(t).len() + 1),
    ));
}

/// Reading back the embedded `created_at` member records its decoded text.
proof fn lemma_member_created_at(s: Seq<u8>, i: int, t: Seq<u8>, acc: crate::codec::PartV)
    requires
        encodable_text(t),
        crate::text::is_utf8(t),
        0 <= i,
        s.subrange(i, i + 13) == seq![0x22u8] + crate::codec::key_created_at() + seq![0x22u8, 0x3au8],
        i + 13 < s.len(),
        s[i + 13] == 0x22,
        i + 14 + escape(t).len() < s.len(),
        s.subrange(i + 14, i + 14 + escape(t).len()) == escape(t),
        s[i + 14 + escape(t).len()] == 0x22,
        acc.created_at is None,
    ensures
        crate::codec::parse_member(s, i, acc) == Some(
            (crate::codec::PartV { created_at: Some(t), ..acc }, i + 14 + escape(t).len() + 1),
        ),
{
    let key = crate::codec::key_created_at();
    assert(forall|k: int| 0 <= k < key.len() ==> is_plain(#[trigger] key[k]));
    assert(forall|k: int| 0 <= k < key.len() ==> #[trigger] key[k] < 0x80);
    assert(crate::codec::key_code_spec(key) == 8);
    let vpos = i + 13;
    let vq = i + 14;
    lemma_member_prefix(s, i, key, acc);
    lemma_region_push_byte(s, vq, vq + escape(t).len(), escape(t), 0x22);
    lemma_parse_of_escape(s, vq, t);
    assert(crate::codec::parse_value_for(s, vpos, 8, acc) == Some(
        (crate::codec::PartV { created_at: Some(t), ..acc }, vq + escape(t).len() + 1),
    ));
}

/// Reading back the embedded `updated_at` member records its decoded text.
proof fn lemma_member_updated_at(s: Seq<u8>, i: int, t: Seq<u8>, acc: crate::codec::PartV)
    requires
        encodable_text(t),
        crate::text::is_utf8(t),
        0 <= i,
        s.subrange(i, i + 13) == seq![0x22u8] + crate::codec::key_updated_at() + seq![0x22u8, 0x3au8],
        i + 13 < s.len(),
        s[i + 13] == 0x22,
        i + 14 + escape(t).len() < s.len(),
        s.subrange(i + 14, i + 14 + escape(t).len()) == escape(t),
        s[i + 14 + escape(t).len()] == 0x22,
        acc.updated_at is None,
    ensures
        crate::codec::parse_member(s, i, acc) == Some(
            (crate::codec::PartV { updated_at: Some(t), ..acc }, i + 14 + escape(t).len() + 1),
        ),
{
    let key = crate::codec::key_updated_at();
    assert(forall|k: int| 0 <= k < key.len() ==> is_plain(#[trigger] key[k]));
    assert(forall|k: int| 0 <= k < key.len() ==> #[trigger] key[k] < 0x80);
    assert(crate::codec::key_code_spec(key) == 9);
    let vpos = i + 13;
    let vq = i + 14;
    lemma_member_prefix(s, i, key, acc);
    lemma_region_push_byte(s, vq, vq + escape(t).len(), escape(t), 0x22);
    lemma_parse_of_escape(s, vq, t);
    assert(crate::codec::parse_value_for(s, vpos, 9, acc) == Some(
        (crate::codec::PartV { updated_at: Some(t), ..acc }, vq + escape(t).len() + 1),
    ));
}

/// Reading back the second half of an encoded record: from the longitude
/// member onwards, the four remaining members land in the record and the
/// closing brace completes it.
#[verifier::rlimit(100)]
proof fn lemma_parse_tail_of_encode(
    s: Seq<u8>,
    q10: int,
    p: PoiV,
    acc5: crate::codec::PartV,
    fuel: nat,
)
    requires
        crate::codec::valid_poi(p),
        0 <= q10,
        fuel >= 3,
        q10 + crate::codec::encode_poi_tail(p).len() <= s.len(),
        s.subrange(q10, q10 + crate::codec::encode_poi_tail(p).len())
            == crate::codec::encode_poi_tail(p),
        acc5 == (crate::codec::PartV {
            id: Some(p.id),
            name: Some(p.name),
            category_id: Some(p.category_id),
            address_id: Some(p.address_id),
            latitude: Some(p.latitude),
            longitude: None,
            slug: None,
            created_at: None,
            updated_at: None,
        }),
    ensures
        crate::codec::parse_members(s, q10 + 1, acc5, fuel) == Some(
            (p, q10 + crate::codec::encode_poi_tail(p).len()),
        ),
        s[q10] == 0x2c,
{
    let c6 = crate::codec::lit_longitude();
    let x2 = p.longitude;
    let c7 = crate::codec::lit_slug();
    let e2 = escape(p.slug);
    let c8 = crate::codec::lit_created();
    let e3 = escape(p.created_at);
    let c9 = crate::codec::lit_updated();
    let e4 = escape(p.updated_at);
    let c10 = crate::codec::lit_close();
    let tail = crate::codec::encode_poi_tail(p);
    let q11 = q10 + 13;
    let q12 = q11 + x2.len();
    let q13 = q12 + 9;
    let q14 = q13 + e2.len();
    let q15 = q14 + 16;
    let q16 = q15 + e3.len();
    let q17 = q16 + 16;
    let q18 = q17 + e4.len();
    let end = q18 + 2;
    let t2 = c6 + x2;
    let t3 = t2 + c7;
    let t4 = t3 + e2;
    let t5 = t4 + c8;
    let t6 = t5 + e3;
    let t7 = t6 + c9;
    let t8 = t7 + e4;
    assert(tail == t8 + c10);
    assert(end == q10 + tail.len());
    lemma_region_split(s, q10, t8, c10);
    lemma_region_split(s, q10, t7, e4);
    lemma_region_split(s, q10, t6, c9);
    lemma_region_split(s, q10, t5, e3);
    lemma_region_split(s, q10, t4, c8);
    lemma_region_split(s, q10, t3, e2);
    lemma_region_split(s, q10, t2, c7);
    lemma_region_split(s, q10, c6, x2);
    assert(s.subrange(q10, q11) == c6);
    assert(s.subrange(q11, q12) == x2);
    assert(s.subrange(q12, q13) == c7);
    assert(s.subrange(q13, q14) == e2);
    assert(s.subrange(q14, q15) == c8);
    assert(s.subrange(q15, q16) == e3);
    assert(s.subrange(q16, q17) == c9);
    assert(s.subrange(q17, q18) == e4);
    assert(s.subrange(q18, end) == c10);
    lemma_region_byte(s, q10, q11, c6, 0);
    lemma_region_byte(s, q10, q11, c6, 1);
    lemma_region_byte(s, q12, q13, c7, 0);
    lemma_region_byte(s, q12, q13, c7, 1);
    lemma_region_byte(s, q12, q13, c7, 8);
    lemma_region_byte(s, q14, q15, c8, 0);
    lemma_region_byte(s, q14, q15, c8, 1);
    lemma_region_byte(s, q14, q15, c8, 2);
    lemma_region_byte(s, q14, q15, c8, 15);
    lemma_region_byte(s, q16, q17, c9, 0);
    lemma_region_byte(s, q16, q17, c9, 1);
    lemma_region_byte(s, q16, q17, c9, 2);
    lemma_region_byte(s, q16, q17, c9, 15);
    lemma_region_byte(s, q18, end, c10, 0);
    lemma_region_byte(s, q18, end, c10, 1);
    // member 6: longitude
    let m6 = q10 + 1;
    lemma_subregion(s, m6, q10 + 13, q10, q11, c6);
    assert(c6.subrange(1, 13) =~= seq![0x22u8] + crate::codec::key_longitude() + seq![0x22u8,
        0x3au8]);
    lemma_member_longitude(s, m6, x2, acc5);
    let acc6 = crate::codec::PartV { longitude: Some(x2), ..acc5 };
    // member 7: slug
    let m7 = q12 + 1;
    lemma_subregion(s, m7, q12 + 8, q12, q13, c7);
    assert(c7.subrange(1, 8) =~= seq![0x22u8] + crate::codec::key_slug() + seq![0x22u8, 0x3au8]);
    lemma_member_slug(s, m7, p.slug, acc6);
    let acc7 = crate::codec::PartV { slug: Some(p.slug), ..acc6 };
    // members 8 and 9 and the closing brace
    lemma_parse_close_of_encode(s, q14, q15, q16, q17, q18, p, acc7, (fuel - 2) as nat);
    assert(crate::codec::ws_end(s, q14 + 1) == q14 + 1);
    assert(crate::codec::ws_end(s, q14 + 2) == q14 + 2);
    assert(crate::codec::parse_members(s, m7, acc6, (fuel - 1) as nat) == Some((p, end)));
    assert(crate::codec::ws_end(s, q12) == q12);
    assert(crate::codec::ws_end(s, q12 + 1) == q12 + 1);
    assert(crate::codec::parse_members(s, m6, acc5, fuel) == Some((p, end)));
}

/// Reading back the last two members of an encoded record, whose closing
/// brace then completes it.
#[verifier::rlimit(100)]
proof fn lemma_parse_close_of_encode(
    s: Seq<u8>,
    q14: int,
    q15: int,
    q16: int,
    q17: int,
    q18: int,
    p: PoiV,
    acc7: crate::codec::PartV,
    fuel: nat,
)
    requires
        crate::codec::valid_poi(p),
        0 <= q14,
        fuel >= 1,
        q15 == q14 + 16,
        q16 == q15 + escape(p.created_at).len(),
        q17 == q16 + 16,
        q18 == q17 + escape(p.updated_at).len(),
        q18 + 2 <= s.len(),
        s.subrange(q14, q15) == crate::codec::lit_created(),
        s.subrange(q15, q16) == escape(p.created_at),
        s.subrange(q16, q17) == crate::codec::lit_updated(),
        s.subrange(q17, q18) == escape(p.updated_at),
        s.subrange(q18, q18 + 2) == crate::codec::lit_close(),
        acc7 == (crate::codec::PartV {
            id: Some(p.id),
            name: Some(p.name),
            category_id: Some(p.category_id),
            address_id: Some(p.address_id),
            latitude: Some(p.latitude),
            longitude: Some(p.longitude),
            slug: Some(p.slug),
            created_at: None,
            updated_at: None,
        }),
    ensures
        crate::codec::parse_members(s, q14 + 2, acc7, fuel) == Some((p, q18 + 2)),
{
    let c8 = crate::codec::lit_created();
    let c9 = crate::codec::lit_updated();
    let c10 = crate::codec::lit_close();
    let end = q18 + 2;
    lemma_region_byte(s, q14, q15, c8, 1);
    lemma_region_byte(s, q14, q15, c8, 2);
    lemma_region_byte(s, q14, q15, c8, 15);
    lemma_region_byte(s, q16, q17, c9, 0);
    lemma_region_byte(s, q16, q17, c9, 1);
    lemma_region_byte(s, q16, q17, c9, 2);
    lemma_region_byte(s, q16, q17, c9, 15);
    lemma_region_byte(s, q18, end, c10, 0);
    lemma_region_byte(s, q18, end, c10, 1);
    // member 8: created_at
    let m8 = q14 + 2;
    lemma_subregion(s, m8, q14 + 15, q14, q15, c8);
    assert(c8.subrange(2, 15) =~= seq![0x22u8] + crate::codec::key_created_at() + seq![0x22u8,
        0x3au8]);
    lemma_member_created_at(s, m8, p.created_at, acc7);
    let acc8 = crate::codec::PartV { created_at: Some(p.created_at), ..acc7 };
    // member 9: updated_at
    let m9 = q16 + 2;
    lemma_subregion(s, m9, q16 + 15, q16, q17, c9);
    assert(c9.subrange(2, 15) =~= seq![0x22u8] + crate::codec::key_updated_at() + seq![0x22u8,
        0x3au8]);
    lemma_member_updated_at(s, m9, p.updated_at, acc8);
    let acc9 = crate::codec::PartV { updated_at: Some(p.updated_at), ..acc8 };
    // the closing brace completes the record
    assert(s[q18 + 1] == 0x7d);
    assert(crate::codec::ws_end(s, q18 + 1) == q18 + 1);
    assert(crate::codec::complete(acc9) == Some(p)) by {
        assert(crate::codec::complete(acc9).unwrap() =~= p);
    };
    assert(crate::codec::parse_members(s, m9, acc8, (fuel - 1) as nat) == Some((p, end)));
    assert(crate::codec::ws_end(s, q16 + 1) == q16 + 1);
    assert(crate::codec::ws_end(s, q16 + 2) == q16 + 2);
    assert(crate::codec::parse_members(s, m8, acc7, fuel) == Some((p, end)));
}

/// Reading back the middle of an encoded record: the category, address
/// and latitude members, then the second half.
#[verifier::rlimit(100)]
proof fn lemma_parse_mid_of_encode(
    s: Seq<u8>,
    q4: int,
    q5: int,
    q6: int,
    q7: int,
    q8: int,
    q9: int,
    q10: int,
    p: PoiV,
    acc2: crate::codec::PartV,
    fuel: nat,
)
    requires
        crate::codec::valid_poi(p),
        0 <= q4,
        fuel >= 6,
        q5 == q4 + 16,
        q6 == q5 + dec_i32(p.category_id).len(),
        q7 == q6 + 14,
        q8 == q7 + dec_i32(p.address_id).len(),
        q9 == q8 + 12,
        q10 == q9 + p.latitude.len(),
        q10 + crate::codec::encode_poi_tail(p).len() <= s.len(),
        s.subrange(q4, q5) == crate::codec::lit_category(),
        s.subrange(q5, q6) == dec_i32(p.category_id),
        s.subrange(q6, q7) == crate::codec::lit_address(),
        s.subrange(q7, q8) == dec_i32(p.address_id),
        s.subrange(q8, q9) == crate::codec::lit_latitude(),
        s.subrange(q9, q10) == p.latitude,
        s.subrange(q10, q10 + crate::codec::encode_poi_tail(p).len())
            == crate::codec::encode_poi_tail(p),
        acc2 == (crate::codec::PartV {
            id: Some(p.id),
            name: Some(p.name),
            category_id: None,
            address_id: None,
            latitude: None,
            longitude: None,
            slug: None,
            created_at: None,
            updated_at: None,
        }),
    ensures
        crate::codec::parse_members(s, q4 + 2, acc2, fuel) == Some(
            (p, q10 + crate::codec::encode_poi_tail(p).len()),
        ),
        s[q4 + 1] == 0x2c,
{
    let c3 = crate::codec::lit_category();
    let c4 = crate::codec::lit_address();
    let c5 = crate::codec::lit_latitude();
    let x1 = p.latitude;
    let tail = crate::codec::encode_poi_tail(p);
    let end = q10 + tail.len();
    lemma_region_byte(s, q4, q5, c3, 1);
    lemma_region_byte(s, q4, q5, c3, 2);
    lemma_region_byte(s, q6, q7, c4, 0);
    lemma_region_byte(s, q6, q7, c4, 1);
    lemma_region_byte(s, q8, q9, c5, 0);
    lemma_region_byte(s, q8, q9, c5, 1);
    // member 3: category_id
    let m3 = q4 + 2;
    lemma_subregion(s, m3, q4 + 16, q4, q5, c3);
    assert(c3.subrange(2, 16) =~= seq![0x22u8] + crate::codec::key_category_id() + seq![0x22u8,
        0x3au8]);
    lemma_member_category_id(s, m3, p.category_id, acc2);
    let acc3 = crate::codec::PartV { category_id: Some(p.category_id), ..acc2 };
    // member 4: address_id
    let m4 = q6 + 1;
    lemma_subregion(s, m4, q6 + 14, q6, q7, c4);
    assert(c4.subrange(1, 14) =~= seq![0x22u8] + crate::codec::key_address_id() + seq![0x22u8,
        0x3au8]);
    lemma_member_address_id(s, m4, p.address_id, acc3);
    let acc4 = crate::codec::PartV { address_id: Some(p.address_id), ..acc3 };
    // member 5: latitude, whose run of number bytes ends at the comma that
    // opens the longitude member
    let m5 = q8 + 1;
    lemma_subregion(s, m5, q8 + 12, q8, q9, c5);
    assert(c5.subrange(1, 12) =~= seq![0x22u8] + crate::codec::key_latitude() + seq![0x22u8,
        0x3au8]);
    lemma_subregion(s, q10, q10 + 13, q10, q10 + tail.len(), tail);
    assert(tail.subrange(0, 13) =~= crate::codec::lit_longitude());
    lemma_region_byte(s, q10, q10 + 13, crate::codec::lit_longitude(), 0);
    lemma_region_byte(s, q10, q10 + 13, crate::codec::lit_longitude(), 1);
    lemma_member_latitude(s, m5, x1, acc4);
    let acc5 = crate::codec::PartV { latitude: Some(x1), ..acc4 };
    lemma_parse_tail_of_encode(s, q10, p, acc5, (fuel - 3) as nat);
    // chain the three members onto the second half
    assert(crate::codec::ws_end(s, q10) == q10);
    assert(crate::codec::ws_end(s, q10 + 1) == q10 + 1);
    assert(crate::codec::parse_members(s, m5, acc4, (fuel - 2) as nat) == Some((p, end)));
    assert(crate::codec::ws_end(s, q8) == q8);
    assert(crate::codec::ws_end(s, q8 + 1) == q8 + 1);
    assert(crate::codec::parse_members(s, m4, acc3, (fuel - 1) as nat) == Some((p, end)));
    assert(crate::codec::ws_end(s, q6) == q6);
    assert(crate::codec::ws_end(s, q6 + 1) == q6 + 1);
    assert(crate::codec::parse_members(s, m3, acc2, fuel) == Some((p, end)));
}

/// Reading back a whole encoded record returns it unchanged and stops at
/// its closing brace.
#[verifier::rlimit(100)]
pub proof fn lemma_parse_object_of_encode(s: Seq<u8>, i: int, p: PoiV)
    requires
        crate::codec::valid_poi(p),
        0 <= i,
        i + crate::codec::encode_poi(p).len() <= s.len(),
        s.subrange(i, i + crate::codec::encode_poi(p).len()) == crate::codec::encode_poi(p),
    ensures
        crate::codec::parse_object(s, i) == Some((p, i + crate::codec::encode_poi(p).len())),
{
    let c1 = crate::codec::lit_obj_id();
    let d1 = dec_i32(p.id);
    let c2 = crate::codec::lit_name();
    let e1 = escape(p.name);
    let c3 = crate::codec::lit_category();
    let d2 = dec_i32(p.category_id);
    let c4 = crate::codec::lit_address();
    let d3 = dec_i32(p.address_id);
    let c5 = crate::codec::lit_latitude();
    let x1 = p.latitude;
    let head = crate::codec::encode_poi_head(p);
    let tail = crate::codec::encode_poi_tail(p);
    let q1 = i + 6;
    let q2 = q1 + d1.len();
    let q3 = q2 + 9;
    let q4 = q3 + e1.len();
    let q5 = q4 + 16;
    let q6 = q5 + d2.len();
    let q7 = q6 + 14;
    let q8 = q7 + d3.len();
    let q9 = q8 + 12;
    let q10 = q9 + x1.len();
    let end = i + crate::codec::encode_poi(p).len();
    let h2 = c1 + d1;
    let h3 = h2 + c2;
    let h4 = h3 + e1;
    let h5 = h4 + c3;
    let h6 = h5 + d2;
    let h7 = h6 + c4;
    let h8 = h7 + d3;
    let h9 = h8 + c5;
    assert(head == h9 + x1);
    assert(q10 == i + head.len());
    lemma_region_split(s, i, head, tail);
    lemma_region_split(s, i, h9, x1);
    lemma_region_split(s, i, h8, c5);
    lemma_region_split(s, i, h7, d3);
    lemma_region_split(s, i, h6, c4);
    lemma_region_split(s, i, h5, d2);
    lemma_region_split(s, i, h4, c3);
    lemma_region_split(s, i, h3, e1);
    lemma_region_split(s, i, h2, c2);
    lemma_region_split(s, i, c1, d1);
    assert(s.subrange(i, q1) == c1);
    assert(s.subrange(q1, q2) == d1);
    assert(s.subrange(q2, q3) == c2);
    assert(s.subrange(q3, q4) == e1);
    assert(s.subrange(q4, q5) == c3);
    assert(s.subrange(q5, q6) == d2);
    assert(s.subrange(q6, q7) == c4);
    assert(s.subrange(q7, q8) == d3);
    assert(s.subrange(q8, q9) == c5);
    assert(s.subrange(q9, q10) == x1);
    assert(s.subrange(q10, q10 + tail.len()) == tail);
    lemma_region_byte(s, i, q1, c1, 0);
    lemma_region_byte(s, i, q1, c1, 1);
    lemma_region_byte(s, q2, q3, c2, 0);
    lemma_region_byte(s, q2, q3, c2, 1);
    lemma_region_byte(s, q2, q3, c2, 8);
    lemma_region_byte(s, q4, q5, c3, 0);
    lemma_region_byte(s, q4, q5, c3, 1);
    lemma_region_byte(s, q4, q5, c3, 2);
    // members 3 to 9
    let fuel = s.len() as nat;
    assert(s.len() >= 8) by {
        assert(crate::codec::encode_poi(p).len() >= 8);
    };
    let acc2 = crate::codec::PartV {
        id: Some(p.id),
        name: Some(p.name),
        category_id: None,
        address_id: None,
        latitude: None,
        longitude: None,
        slug: None,
        created_at: None,
        updated_at: None,
    };
    lemma_parse_mid_of_encode(s, q4, q5, q6, q7, q8, q9, q10, p, acc2, (fuel - 2) as nat);
    assert(end == q10 + tail.len());
    // members 1 and 2
    lemma_parse_open_of_encode(s, i, q1, q2, q3, q4, p, fuel);
    assert(s[i] == 0x7b);
    assert(crate::codec::ws_end(s, i + 1) == i + 1);
    assert(crate::codec::parse_object(s, i) == Some((p, end)));
}

/// Reading back the first two members of an encoded record, the rest of
/// the member run being given.
#[verifier::rlimit(100)]
proof fn lemma_parse_open_of_encode(
    s: Seq<u8>,
    i: int,
    q1: int,
    q2: int,
    q3: int,
    q4: int,
    p: PoiV,
    fuel: nat,
)
    requires
        crate::codec::valid_poi(p),
        0 <= i,
        fuel >= 2,
        q1 == i + 6,
        q2 == q1 + dec_i32(p.id).len(),
        q3 == q2 + 9,
        q4 == q3 + escape(p.name).len(),
        q4 + 2 < s.len(),
        s.subrange(i, q1) == crate::codec::lit_obj_id(),
        s.subrange(q1, q2) == dec_i32(p.id),
        s.subrange(q2, q3) == crate::codec::lit_name(),
        s.subrange(q3, q4) == escape(p.name),
        s[q4] == 0x22,
        s[q4 + 1] == 0x2c,
        s[q4 + 2] == 0x22,
        crate::codec::parse_members(
            s,
            q4 + 2,
            crate::codec::PartV {
                id: Some(p.id),
                name: Some(p.name),
                category_id: None,
                address_id: None,
                latitude: None,
                longitude: None,
                slug: None,
                created_at: None,
                updated_at: None,
            },
            (fuel - 2) as nat,
        ) is Some,
    ensures
        crate::codec::parse_members(s, i + 1, crate::codec::empty_part(), fuel)
            == crate::codec::parse_members(
            s,
            q4 + 2,
            crate::codec::PartV {
                id: Some(p.id),
                name: Some(p.name),
                category_id: None,
                address_id: None,
                latitude: None,
                longitude: None,
                slug: None,
                created_at: None,
                updated_at: None,
            },
            (fuel - 2) as nat,
        ),
{
    let c1 = crate::codec::lit_obj_id();
    let d1 = dec_i32(p.id);
    let c2 = crate::codec::lit_name();
    let e1 = escape(p.name);
    lemma_region_byte(s, q2, q3, c2, 0);
    lemma_region_byte(s, q2, q3, c2, 1);
    lemma_region_byte(s, q2, q3, c2, 8);
    // member 1: id
    let m1 = i + 1;
    let acc0 = crate::codec::empty_part();
    lemma_subregion(s, m1, i + 6, i, q1, c1);
    assert(c1.subrange(1, 6) =~= seq![0x22u8] + crate::codec::key_id() + seq![0x22u8, 0x3au8]);
    lemma_member_id(s, m1, p.id, acc0);
    let acc1 = crate::codec::PartV { id: Some(p.id), ..acc0 };
    // member 2: name
    let m2 = q2 + 1;
    lemma_subregion(s, m2, q2 + 8, q2, q3, c2);
    assert(c2.subrange(1, 8) =~= seq![0x22u8] + crate::codec::key_name() + seq![0x22u8, 0x3au8]);
    lemma_member_name(s, m2, p.name, acc1);
    let acc2 = crate::codec::PartV { name: Some(p.name), ..acc1 };
    assert(crate::codec::ws_end(s, q4 + 1) == q4 + 1);
    assert(crate::codec::ws_end(s, q4 + 2) == q4 + 2);
    assert(crate::codec::parse_members(s, m2, acc1, (fuel - 1) as nat)
        == crate::codec::parse_members(s, q4 + 2, acc2, (fuel - 2) as nat));
    assert(crate::codec::ws_end(s, q2) == q2);
    assert(crate::codec::ws_end(s, q2 + 1) == q2 + 1);
    assert(crate::codec::parse_members(s, m1, acc0, fuel) == crate::codec::parse_members(
        s,
        q4 + 2,
        acc2,
        (fuel - 2) as nat,
    ));
}

/// An encoded record begins with its opening brace.
proof fn lemma_encode_poi_first(p: PoiV)
    ensures
        crate::codec::encode_poi(p).len() >= 2,
        crate::codec::encode_poi(p)[0] == 0x7b,
{
    let c1 = crate::codec::lit_obj_id();
    let d1 = dec_i32(p.id);
    assert((c1 + d1)[0] == c1[0]);
    assert(crate::codec::encode_poi(p)[0] == c1[0]);
}

/// A nonempty run of encoded records begins with a brace.
proof fn lemma_encode_items_first(ps: Seq<PoiV>)
    requires
        ps.len() >= 1,
    ensures
        crate::codec::encode_items(ps).len() >= 2,
        crate::codec::encode_items(ps)[0] == 0x7b,
{
    lemma_encode_poi_first(ps[0]);
    if ps.len() == 1 {
    } else {
        assert(crate::codec::encode_items(ps)[0] == crate::codec::encode_poi(ps[0])[0]);
    }
}

/// Reading back an encoded run of records, up to the closing bracket that
/// follows it, returns the records in order.
#[verifier::rlimit(100)]
proof fn lemma_parse_items_of_encode(s: Seq<u8>, i: int, ps: Seq<PoiV>)
    requires
        crate::codec::valid_pois(ps),
        ps.len() >= 1,
        0 <= i,
        i + crate::codec::encode_items(ps).len() + 1 <= s.len(),
        s.subrange(i, i + crate::codec::encode_items(ps).len())
            == crate::codec::encode_items(ps),
        s[i + crate::codec::encode_items(ps).len()] == 0x5d,
    ensures
        crate::codec::parse_items(s, i) == Some(
            (ps, i + crate::codec::encode_items(ps).len() + 1),
        ),
    decreases ps.len(),
{
    let e = crate::codec::encode_items(ps);
    let ep = crate::codec::encode_poi(ps[0]);
    assert(crate::codec::valid_poi(ps[0]));
    if ps.len() == 1 {
        assert(e == ep);
        lemma_parse_object_of_encode(s, i, ps[0]);
        let j = i + ep.len();
        assert(!crate::codec::is_ws(s[j]));
        assert(crate::codec::ws_end(s, j) == j);
        assert(crate::codec::parse_items(s, i) == Some((seq![ps[0]], j + 1)));
        assert(seq![ps[0]] =~= ps);
    } else {
        let rest = crate::codec::encode_items(ps.drop_first());
        assert(e == ep + seq![0x2cu8] + rest);
        let epc = ep + seq![0x2cu8];
        assert(e == epc + rest);
        lemma_region_split(s, i, epc, rest);
        lemma_region_split(s, i, ep, seq![0x2cu8]);
        let jo = i + ep.len();
        lemma_region_byte(s, jo, jo + 1, seq![0x2cu8], 0);
        assert(s[jo] == 0x2c);
        lemma_parse_object_of_encode(s, i, ps[0]);
        assert(crate::codec::ws_end(s, jo) == jo);
        let i2 = jo + 1;
        lemma_encode_items_first(ps.drop_first());
        lemma_region_byte(s, i2, i2 + rest.len(), rest, 0);
        assert(s[i2] == 0x7b);
        assert(crate::codec::ws_end(s, i2) == i2);
        assert(crate::codec::valid_pois(ps.drop_first())) by {
            assert(forall|k: int| 0 <= k < ps.drop_first().len()
                ==> #[trigger] ps.drop_first()[k] == ps[k + 1]);
        };
        assert(s[i2 + rest.len()] == 0x5d);
        lemma_parse_items_of_encode(s, i2, ps.drop_first());
        assert(crate::codec::parse_items(s, i) == Some(
            (seq![ps[0]] + ps.drop_first(), i2 + rest.len() + 1),
        ));
        assert(seq![ps[0]] + ps.drop_first() =~= ps);
        assert(i2 + rest.len() + 1 == i + e.len() + 1);
    }
}

/// The round-trip law of the wire format: a page of valid records, written
/// out by the encoder, decodes back to exactly the same records, every
/// field preserved verbatim.
#[verifier::rlimit(100)]
pub proof fn lemma_decode_encode(ps: Seq<PoiV>)
    requires
        crate::codec::valid_pois(ps),
    ensures
        crate::codec::spec_decode(crate::codec::spec_encode(ps)) == Some(ps),
{
    let s = crate::codec::spec_encode(ps);
    let items = crate::codec::encode_items(ps);
    let b = seq![0x5bu8];
    let close = seq![0x5du8];
    assert(s == b + items + close);
    assert(s.subrange(0, s.len() as int) =~= s);
    lemma_region_split(s, 0, b + items, close);
    lemma_region_split(s, 0, b, items);
    lemma_region_byte(s, 0, 1, b, 0);
    assert(s[0] == 0x5b);
    assert(crate::codec::ws_end(s, 0) == 0);
    lemma_region_byte(s, 1 + items.len() as int, s.len() as int, close, 0);
    assert(s[1 + items.len() as int] == 0x5d);
    if ps.len() == 0 {
        assert(items =~= Seq::<u8>::empty());
        assert(s.len() == 2);
        assert(s[1] == 0x5d);
        assert(crate::codec::ws_end(s, 1) == 1);
        assert(crate::codec::ws_end(s, 2) == 2);
        assert(crate::codec::spec_decode(s) == Some(Seq::<PoiV>::empty()));
        assert(Seq::<PoiV>::empty() =~= ps);
    } else {
        lemma_encode_items_first(ps);
        lemma_region_byte(s, 1, 1 + items.len() as int, items, 0);
        assert(s[1] == 0x7b);
        assert(crate::codec::ws_end(s, 1) == 1);
        lemma_parse_items_of_encode(s, 1, ps);
        assert(crate::codec::parse_items(s, 1) == Some((ps, s.len() as int)));
        assert(crate::codec::ws_end(s, s.len() as int) == s.len());
        assert(crate::codec::spec_decode(s) == Some(ps));
    }
}

} // verus!
