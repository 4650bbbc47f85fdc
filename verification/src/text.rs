//! JSON string literals for the POI wire format: which bytes pass through
//! a literal plainly, how the others are escaped, and how a literal is read
//! back. Text is handled as raw bytes; multi-byte characters pass through
//! unchanged.

use vstd::prelude::*;

verus! {

/// Bytes that may sit unescaped inside a string literal: anything but a
/// control byte, the quote, and the backslash.
pub open spec fn is_plain(b: u8) -> bool {
    b >= 0x20 && b != 0x22 && b != 0x5c
}

/// The escape letter this codec writes after a backslash for the bytes it
/// escapes: the quote, the backslash, and the five named control bytes.
pub open spec fn escape_code(b: u8) -> u8 {
    if b == 0x22 {
        0x22
    } else if b == 0x5c {
        0x5c
    } else if b == 0x08 {
        0x62
    } else if b == 0x0c {
        0x66
    } else if b == 0x0a {
        0x6e
    } else if b == 0x0d {
        0x72
    } else {
        0x74
    }
}

/// What a backslash escape decodes to, if its letter is one this format
/// accepts: quote, backslash, slash, and the five named control bytes.
pub open spec fn unescape_code(c: u8) -> Option<u8> {
    if c == 0x22 {
        Some(0x22u8)
    } else if c == 0x5c {
        Some(0x5cu8)
    } else if c == 0x2f {
        Some(0x2fu8)
    } else if c == 0x62 {
        Some(0x08u8)
    } else if c == 0x66 {
        Some(0x0cu8)
    } else if c == 0x6e {
        Some(0x0au8)
    } else if c == 0x72 {
        Some(0x0du8)
    } else if c == 0x74 {
        Some(0x09u8)
    } else {
        None
    }
}

/// A byte the encoder can write into a string literal: plain, or one of the
/// seven with an escape of their own.
pub open spec fn encodable_byte(b: u8) -> bool {
    is_plain(b) || b == 0x22 || b == 0x5c || b == 0x08 || b == 0x0c || b == 0x0a || b == 0x0d
        || b == 0x09
}

/// A text value the encoder can write back out verbatim.
pub open spec fn encodable_text(t: Seq<u8>) -> bool {
    forall|k: int| 0 <= k < t.len() ==> encodable_byte(t[k])
}

/// The value of one hexadecimal digit, either case.
pub open spec fn hex_val(b: u8) -> Option<int> {
    if 0x30 <= b <= 0x39 {
        Some((b - 0x30) as int)
    } else if 0x61 <= b <= 0x66 {
        Some(b - 0x61 + 10)
    } else if 0x41 <= b <= 0x46 {
        Some(b - 0x41 + 10)
    } else {
        None
    }
}

/// The value of the four hex digits at `i`, as in a `\u` escape.
pub open spec fn hex4(s: Seq<u8>, i: int) -> Option<int> {
    if 0 <= i && i + 4 <= s.len() {
        match (hex_val(s[i]), hex_val(s[i + 1]), hex_val(s[i + 2]), hex_val(s[i + 3])) {
            (Some(a), Some(b), Some(c), Some(d)) => Some(a * 4096 + b * 256 + c * 16 + d),
            _ => None,
        }
    } else {
        None
    }
}

/// The UTF-16 code units that only open a surrogate pair.
pub open spec fn is_high_surrogate(cu: int) -> bool {
    0xD800 <= cu <= 0xDBFF
}

/// The UTF-16 code units that only close one.
pub open spec fn is_low_surrogate(cu: int) -> bool {
    0xDC00 <= cu <= 0xDFFF
}

/// The UTF-8 encoding of one code point.
pub open spec fn utf8_of(cp: int) -> Seq<u8> {
    if cp < 0x80 {
        seq![cp as u8]
    } else if cp < 0x800 {
        seq![(0xC0 + cp / 64) as u8, (0x80 + cp % 64) as u8]
    } else if cp < 0x10000 {
        seq![(0xE0 + cp / 4096) as u8, (0x80 + (cp / 64) % 64) as u8, (0x80 + cp % 64) as u8]
    } else {
        seq![
            (0xF0 + cp / 262144) as u8,
            (0x80 + (cp / 4096) % 64) as u8,
            (0x80 + (cp / 64) % 64) as u8,
            (0x80 + cp % 64) as u8,
        ]
    }
}

/// A UTF-8 continuation byte.
pub open spec fn is_cont(b: u8) -> bool {
    0x80 <= b <= 0xBF
}

/// How many bytes the UTF-8 sequence starting at `i` spans, if it is one:
/// the standard table, overlong forms and surrogates excluded.
pub open spec fn utf8_seq_len(t: Seq<u8>, i: int) -> Option<int> {
    if i < 0 || i >= t.len() {
        None
    } else {
        let b = t[i];
        if b < 0x80 {
            Some(1)
        } else if 0xC2 <= b <= 0xDF {
            if i + 1 < t.len() && is_cont(t[i + 1]) {
                Some(2)
            } else {
                None
            }
        } else if b == 0xE0 {
            if t.len() - i > 2 && 0xA0 <= t[i + 1] <= 0xBF && is_cont(t[i + 2]) {
                Some(3)
            } else {
                None
            }
        } else if 0xE1 <= b <= 0xEC || b == 0xEE || b == 0xEF {
            if i + 2 < t.len() && is_cont(t[i + 1]) && is_cont(t[i + 2]) {
                Some(3)
            } else {
                None
            }
        } else if b == 0xED {
            if t.len() - i > 2 && 0x80 <= t[i + 1] <= 0x9F && is_cont(t[i + 2]) {
                Some(3)
            } else {
                None
            }
        } else if b == 0xF0 {
            if t.len() - i > 3 && 0x90 <= t[i + 1] <= 0xBF && is_cont(t[i + 2]) && is_cont(
                t[i + 3],
            ) {
                Some(4)
            } else {
                None
            }
        } else if 0xF1 <= b <= 0xF3 {
            if i + 3 < t.len() && is_cont(t[i + 1]) && is_cont(t[i + 2]) && is_cont(t[i + 3]) {
                Some(4)
            } else {
                None
            }
        } else if b == 0xF4 {
            if t.len() - i > 3 && 0x80 <= t[i + 1] <= 0x8F && is_cont(t[i + 2]) && is_cont(
                t[i + 3],
            ) {
                Some(4)
            } else {
                None
            }
        } else {
            None
        }
    }
}

/// Whether `t` is valid UTF-8 from `i` on.
pub open spec fn is_utf8_from(t: Seq<u8>, i: int) -> bool
    decreases t.len() - i,
    when 0 <= i <= t.len()
{
    if i >= t.len() {
        true
    } else {
        match utf8_seq_len(t, i) {
            Some(n) => is_utf8_from(t, i + n),
            None => false,
        }
    }
}

/// Whether `t` is valid UTF-8, as the decoder demands of every string.
pub open spec fn is_utf8(t: Seq<u8>) -> bool {
    is_utf8_from(t, 0)
}

/// Pure ASCII is valid UTF-8.
pub proof fn lemma_ascii_utf8(t: Seq<u8>)
    requires
        forall|k: int| 0 <= k < t.len() ==> t[k] < 0x80,
    ensures
        is_utf8(t),
{
    lemma_ascii_utf8_from(t, 0);
}

proof fn lemma_ascii_utf8_from(t: Seq<u8>, i: int)
    requires
        0 <= i <= t.len(),
        forall|k: int| 0 <= k < t.len() ==> t[k] < 0x80,
    ensures
        is_utf8_from(t, i),
    decreases t.len() - i,
{
    if i < t.len() {
        assert(t[i] < 0x80);
        lemma_ascii_utf8_from(t, i + 1);
    }
}

/// Checks UTF-8 validity, exactly as `is_utf8` says.
pub fn check_utf8(t: &Vec<u8>) -> (r: bool)
    ensures
        r == is_utf8(t@),
{
    let mut i: usize = 0;
    loop
        invariant
            i <= t@.len(),
            is_utf8(t@) == is_utf8_from(t@, i as int),
        decreases t@.len() - i,
    {
        if i >= t.len() {
            return true;
        }
        let b = t[i];
        if b < 0x80 {
            i = i + 1;
        } else if 0xC2 <= b && b <= 0xDF {
            if t.len() - i > 1 && 0x80 <= t[i + 1] && t[i + 1] <= 0xBF {
                i = i + 2;
            } else {
                return false;
            }
        } else if b == 0xE0 {
            if t.len() - i > 2 && 0xA0 <= t[i + 1] && t[i + 1] <= 0xBF && 0x80 <= t[i + 2] && t[i
                + 2] <= 0xBF {
                i = i + 3;
            } else {
                return false;
            }
        } else if (0xE1 <= b && b <= 0xEC) || b == 0xEE || b == 0xEF {
            if t.len() - i > 2 && 0x80 <= t[i + 1] && t[i + 1] <= 0xBF && 0x80 <= t[i + 2] && t[i
                + 2] <= 0xBF {
                i = i + 3;
            } else {
                return false;
            }
        } else if b == 0xED {
            if t.len() - i > 2 && 0x80 <= t[i + 1] && t[i + 1] <= 0x9F && 0x80 <= t[i + 2] && t[i
                + 2] <= 0xBF {
                i = i + 3;
            } else {
                return false;
            }
        } else if b == 0xF0 {
            if t.len() - i > 3 && 0x90 <= t[i + 1] && t[i + 1] <= 0xBF && 0x80 <= t[i + 2] && t[i
                + 2] <= 0xBF && 0x80 <= t[i + 3] && t[i + 3] <= 0xBF {
                i = i + 4;
            } else {
                return false;
            }
        } else if 0xF1 <= b && b <= 0xF3 {
            if t.len() - i > 3 && 0x80 <= t[i + 1] && t[i + 1] <= 0xBF && 0x80 <= t[i + 2] && t[i
                + 2] <= 0xBF && 0x80 <= t[i + 3] && t[i + 3] <= 0xBF {
                i = i + 4;
            } else {
                return false;
            }
        } else if b == 0xF4 {
            if t.len() - i > 3 && 0x80 <= t[i + 1] && t[i + 1] <= 0x8F && 0x80 <= t[i + 2] && t[i
                + 2] <= 0xBF && 0x80 <= t[i + 3] && t[i + 3] <= 0xBF {
                i = i + 4;
            } else {
                return false;
            }
        } else {
            return false;
        }
    }
}

/// How one byte appears inside a string literal.
pub open spec fn escape_byte(b: u8) -> Seq<u8> {
    if is_plain(b) {
        seq![b]
    } else {
        seq![0x5cu8, escape_code(b)]
    }
}

/// The body of the string literal for `t`: each byte plain or escaped.
pub open spec fn escape(t: Seq<u8>) -> Seq<u8>
    decreases t.len(),
{
    if t.len() == 0 {
        Seq::empty()
    } else {
        escape_byte(t[0]) + escape(t.subrange(1, t.len() as int))
    }
}

/// Escaping one byte more extends the literal body at its end.
pub proof fn lemma_escape_push(t: Seq<u8>, b: u8)
    ensures
        escape(t.push(b)) == escape(t) + escape_byte(b),
    decreases t.len(),
{
    if t.len() == 0 {
        assert(t.push(b)[0] == b);
        assert(t.push(b).subrange(1, 1) =~= Seq::<u8>::empty());
        assert(escape(t.push(b)) == escape_byte(b) + escape(Seq::<u8>::empty()));
        assert(escape(Seq::<u8>::empty()) == Seq::<u8>::empty());
        assert(escape_byte(b) + Seq::<u8>::empty() =~= Seq::<u8>::empty() + escape_byte(b));
        assert(escape(t) == Seq::<u8>::empty());
    } else {
        assert(t.push(b).subrange(1, t.len() + 1 as int) =~= t.subrange(1, t.len() as int).push(
            b,
        ));
        lemma_escape_push(t.subrange(1, t.len() as int), b);
        assert(escape(t.push(b)) =~= escape(t) + escape_byte(b));
    }
}

/// Reads the rest of a string literal: `s` from `i` (just past the opening
/// quote) up to and including the closing quote. Yields the decoded text
/// and the position after the closing quote. A `\uXXXX` escape decodes to
/// the code point's UTF-8 bytes, surrogate halves pairing up as UTF-16
/// asks. Raw control bytes, unknown escapes, lone surrogate halves, and a
/// missing closing quote are refused.
pub open spec fn parse_string_rest(s: Seq<u8>, i: int) -> Option<(Seq<u8>, int)>
    decreases s.len() - i,
{
    if i < 0 || i >= s.len() {
        None
    } else if s[i] == 0x22 {
        Some((Seq::empty(), i + 1))
    } else if s[i] == 0x5c {
        if i + 1 < s.len() {
            if s[i + 1] == 0x75 {
                match hex4(s, i + 2) {
                    Some(cu) => if is_low_surrogate(cu) {
                        None
                    } else if is_high_surrogate(cu) {
                        if s.len() - i > 7 && s[i + 6] == 0x5c && s[i + 7] == 0x75 {
                            match hex4(s, i + 8) {
                                Some(cu2) => if is_low_surrogate(cu2) {
                                    match parse_string_rest(s, i + 12) {
                                        Some((t, j)) => Some(
                                            (
                                                utf8_of(
                                                    0x10000 + (cu - 0xD800) * 0x400 + (cu2
                                                        - 0xDC00),
                                                ) + t,
                                                j,
                                            ),
                                        ),
                                        None => None,
                                    }
                                } else {
                                    None
                                },
                                None => None,
                            }
                        } else {
                            None
                        }
                    } else {
                        match parse_string_rest(s, i + 6) {
                            Some((t, j)) => Some((utf8_of(cu) + t, j)),
                            None => None,
                        }
                    },
                    None => None,
                }
            } else {
                match unescape_code(s[i + 1]) {
                    Some(b) => match parse_string_rest(s, i + 2) {
                        Some((t, j)) => Some((seq![b] + t, j)),
                        None => None,
                    },
                    None => None,
                }
            }
        } else {
            None
        }
    } else if s[i] >= 0x20 {
        match parse_string_rest(s, i + 1) {
            Some((t, j)) => Some((seq![s[i]] + t, j)),
            None => None,
        }
    } else {
        None
    }
}

/// A successfully read literal ends after where it began, and within the
/// input.
pub proof fn lemma_parse_string_rest_props(s: Seq<u8>, i: int)
    requires
        parse_string_rest(s, i) is Some,
    ensures
        i < parse_string_rest(s, i).unwrap().1 <= s.len(),
    decreases s.len() - i,
{
    if s[i] == 0x22 {
    } else if s[i] == 0x5c {
        if s[i + 1] == 0x75 {
            let cu = hex4(s, i + 2).unwrap();
            if is_high_surrogate(cu) {
                lemma_parse_string_rest_props(s, i + 12);
            } else {
                lemma_parse_string_rest_props(s, i + 6);
            }
        } else {
            lemma_parse_string_rest_props(s, i + 2);
        }
    } else {
        lemma_parse_string_rest_props(s, i + 1);
    }
}

/// Reading back what the encoder wrote returns the text unchanged: the
/// literal body `escape(t)` followed by the closing quote decodes to `t`.
pub proof fn lemma_parse_of_escape(s: Seq<u8>, i: int, t: Seq<u8>)
    requires
        encodable_text(t),
        0 <= i,
        i + escape(t).len() + 1 <= s.len(),
        s.subrange(i, i + escape(t).len() + 1) == escape(t).push(0x22u8),
    ensures
        parse_string_rest(s, i) == Some((t, i + escape(t).len() + 1)),
    decreases t.len(),
{
    let e = escape(t).push(0x22u8);
    let jend = i + escape(t).len() + 1;
    if t.len() == 0 {
        assert(s[i] == s.subrange(i, jend)[0]);
        assert(e[0] == 0x22);
    } else {
        let b = t[0];
        let rest = t.subrange(1, t.len() as int);
        assert(encodable_byte(b));
        assert(escape(t) == escape_byte(b) + escape(rest));
        let hl = escape_byte(b).len() as int;
        let inext = i + hl;
        let jnext = inext + escape(rest).len() + 1;
        assert(jnext == jend);
        assert(e =~= escape_byte(b) + escape(rest).push(0x22u8));
        assert(s.subrange(inext, jnext) =~= escape(rest).push(0x22u8)) by {
            assert forall|k: int| 0 <= k < jnext - inext implies #[trigger] s.subrange(
                inext,
                jnext,
            )[k] == escape(rest).push(0x22u8)[k] by {
                assert(s.subrange(inext, jnext)[k] == s[inext + k]);
                assert(s[inext + k] == s.subrange(i, jend)[hl + k]);
                assert(s.subrange(i, jend)[hl + k] == e[hl + k]);
                assert(e[hl + k] == (escape_byte(b) + escape(rest).push(0x22u8))[hl + k]);
                assert((escape_byte(b) + escape(rest).push(0x22u8))[hl + k] == escape(rest).push(
                    0x22u8,
                )[k]);
            };
        };
        lemma_parse_of_escape(s, inext, rest);
        assert(s[i] == s.subrange(i, jend)[0]);
        assert(e[0] == (escape_byte(b) + escape(rest).push(0x22u8))[0]);
        assert(e[0] == escape_byte(b)[0]);
        if is_plain(b) {
            assert(s[i] == b);
            assert(seq![b] + rest =~= t);
        } else {
            assert(s[i] == 0x5c);
            assert(escape_code(b) != 0x75);
            assert(s[i + 1] == s.subrange(i, jend)[1]);
            assert(e[1] == (escape_byte(b) + escape(rest).push(0x22u8))[1]);
            assert(e[1] == escape_byte(b)[1]);
            assert(s[i + 1] == escape_code(b));
            assert(unescape_code(escape_code(b)) == Some(b));
            assert(seq![b] + rest =~= t);
        }
    }
}

/// Reads one hex digit, exactly as `hex_val` says.
fn hex_digit(b: u8) -> (r: Option<u8>)
    ensures
        match hex_val(b) {
            Some(v) => r matches Some(x) && x as int == v,
            None => r is None,
        },
{
    if 0x30 <= b && b <= 0x39 {
        Some(b - 0x30)
    } else if 0x61 <= b && b <= 0x66 {
        Some(b - 0x61 + 10)
    } else if 0x41 <= b && b <= 0x46 {
        Some(b - 0x41 + 10)
    } else {
        None
    }
}

/// Reads four hex digits, exactly as `hex4` says.
fn hex4_x(s: &Vec<u8>, start: usize) -> (r: Option<u32>)
    requires
        start <= s@.len(),
    ensures
        match hex4(s@, start as int) {
            Some(v) => r matches Some(x) && x as int == v && x < 0x10000,
            None => r is None,
        },
{
    if s.len() >= 4 && start <= s.len() - 4 {
        match (hex_digit(s[start]), hex_digit(s[start + 1]), hex_digit(s[start + 2]), hex_digit(
            s[start + 3],
        )) {
            (Some(a), Some(b), Some(c), Some(d)) => Some(
                (a as u32) * 4096 + (b as u32) * 256 + (c as u32) * 16 + (d as u32),
            ),
            _ => None,
        }
    } else {
        None
    }
}

/// Appends the UTF-8 bytes of one code point, exactly as `utf8_of` says.
fn push_utf8(out: &mut Vec<u8>, cp: u32)
    requires
        cp < 0x110000,
    ensures
        final(out)@ == old(out)@ + utf8_of(cp as int),
{
    if cp < 0x80 {
        out.push(cp as u8);
        assert(out@ =~= old(out)@ + utf8_of(cp as int));
    } else if cp < 0x800 {
        out.push((0xC0 + cp / 64) as u8);
        out.push((0x80 + cp % 64) as u8);
        assert(out@ =~= old(out)@ + utf8_of(cp as int));
    } else if cp < 0x10000 {
        out.push((0xE0 + cp / 4096) as u8);
        out.push((0x80 + (cp / 64) % 64) as u8);
        out.push((0x80 + cp % 64) as u8);
        assert(out@ =~= old(out)@ + utf8_of(cp as int));
    } else {
        out.push((0xF0 + cp / 262144) as u8);
        out.push((0x80 + (cp / 4096) % 64) as u8);
        out.push((0x80 + (cp / 64) % 64) as u8);
        out.push((0x80 + cp % 64) as u8);
        assert(out@ =~= old(out)@ + utf8_of(cp as int));
    }
}

/// Decodes the escape letter `c`, exactly as `unescape_code` says.
pub fn unescape_byte(c: u8) -> (r: Option<u8>)
    ensures
        r == unescape_code(c),
{
    if c == 0x22 {
        Some(0x22u8)
    } else if c == 0x5c {
        Some(0x5cu8)
    } else if c == 0x2f {
        Some(0x2fu8)
    } else if c == 0x62 {
        Some(0x08u8)
    } else if c == 0x66 {
        Some(0x0cu8)
    } else if c == 0x6e {
        Some(0x0au8)
    } else if c == 0x72 {
        Some(0x0du8)
    } else if c == 0x74 {
        Some(0x09u8)
    } else {
        None
    }
}

/// Appends the string literal body for `t` to `out`, escaping the quote,
/// the backslash, and the five named control bytes.
pub fn push_escaped(out: &mut Vec<u8>, t: &Vec<u8>)
    requires
        encodable_text(t@),
    ensures
        final(out)@ == old(out)@ + escape(t@),
{
    let ghost out0 = out@;
    let mut k: usize = 0;
    while k < t.len()
        invariant
            k <= t.len(),
            encodable_text(t@),
            out@ == out0 + escape(t@.subrange(0, k as int)),
        decreases t.len() - k,
    {
        let b = t[k];
        proof {
            assert(t@.subrange(0, k + 1) =~= t@.subrange(0, k as int).push(b));
            lemma_escape_push(t@.subrange(0, k as int), b);
        }
        if b >= 0x20 && b != 0x22 && b != 0x5c {
            out.push(b);
            assert(out@ =~= out0 + escape(t@.subrange(0, k + 1)));
        } else {
            out.push(0x5c);
            if b == 0x22 {
                out.push(0x22);
            } else if b == 0x5c {
                out.push(0x5c);
            } else if b == 0x08 {
                out.push(0x62);
            } else if b == 0x0c {
                out.push(0x66);
            } else if b == 0x0a {
                out.push(0x6e);
            } else if b == 0x0d {
                out.push(0x72);
            } else {
                assert(b == 0x09);
                out.push(0x74);
            }
            assert(out@ =~= out0 + escape(t@.subrange(0, k + 1)));
        }
        k = k + 1;
    }
    proof {
        assert(t@.subrange(0, t@.len() as int) =~= t@);
    }
}

/// Reads the rest of a string literal starting at `start` (just past the
/// opening quote), exactly as `parse_string_rest` says.
pub fn scan_string_rest(s: &Vec<u8>, start: usize) -> (r: Option<(Vec<u8>, usize)>)
    requires
        start <= s@.len(),
    ensures
        match parse_string_rest(s@, start as int) {
            Some((st, sj)) => r matches Some((t, j)) && t@ == st && j == sj,
            None => r is None,
        },
{
    let mut out: Vec<u8> = Vec::new();
    let mut i: usize = start;
    loop
        invariant
            start <= i <= s@.len(),
            match parse_string_rest(s@, i as int) {
                Some((t, j)) => parse_string_rest(s@, start as int) == Some((out@ + t, j)),
                None => parse_string_rest(s@, start as int) is None,
            },
        decreases s@.len() - i,
    {
        if i >= s.len() {
            return None;
        }
        let b = s[i];
        if b == 0x22 {
            proof {
                assert(out@ + Seq::<u8>::empty() =~= out@);
            }
            return Some((out, i + 1));
        } else if b == 0x5c {
            if i + 1 >= s.len() {
                return None;
            }
            if s[i + 1] == 0x75 {
                match hex4_x(s, i + 2) {
                    Some(cu) => {
                        if 0xDC00 <= cu && cu <= 0xDFFF {
                            return None;
                        } else if 0xD800 <= cu && cu <= 0xDBFF {
                            if s.len() - i > 7 && s[i + 6] == 0x5c && s[i + 7] == 0x75 {
                                match hex4_x(s, i + 8) {
                                    Some(cu2) => {
                                        if 0xDC00 <= cu2 && cu2 <= 0xDFFF {
                                            let cp: u32 = 0x10000 + (cu - 0xD800) * 0x400 + (cu2
                                                - 0xDC00);
                                            proof {
                                                if let Some((t, j)) = parse_string_rest(
                                                    s@,
                                                    i + 12,
                                                ) {
                                                    assert(parse_string_rest(s@, i as int)
                                                        == Some((utf8_of(cp as int) + t, j)));
                                                    assert(out@ + (utf8_of(cp as int) + t) =~= (
                                                    out@ + utf8_of(cp as int)) + t);
                                                }
                                            }
                                            push_utf8(&mut out, cp);
                                            i = i + 12;
                                        } else {
                                            return None;
                                        }
                                    },
                                    None => {
                                        return None;
                                    },
                                }
                            } else {
                                return None;
                            }
                        } else {
                            proof {
                                if let Some((t, j)) = parse_string_rest(s@, i + 6) {
                                    assert(parse_string_rest(s@, i as int) == Some(
                                        (utf8_of(cu as int) + t, j),
                                    ));
                                    assert(out@ + (utf8_of(cu as int) + t) =~= (out@ + utf8_of(
                                        cu as int,
                                    )) + t);
                                }
                            }
                            push_utf8(&mut out, cu);
                            i = i + 6;
                        }
                    },
                    None => {
                        return None;
                    },
                }
                continue;
            }
            match unescape_byte(s[i + 1]) {
                Some(d) => {
                    proof {
                        if let Some((t, j)) = parse_string_rest(s@, i + 2) {
                            assert(parse_string_rest(s@, i as int) == Some((seq![d] + t, j)));
                            assert(out@ + (seq![d] + t) =~= out@.push(d) + t);
                        }
                    }
                    out.push(d);
                    i = i + 2;
                },
                None => {
                    return None;
                },
            }
        } else if b >= 0x20 {
            proof {
                if let Some((t, j)) = parse_string_rest(s@, i + 1) {
                    assert(parse_string_rest(s@, i as int) == Some((seq![b] + t, j)));
                    assert(out@ + (seq![b] + t) =~= out@.push(b) + t);
                }
            }
            out.push(b);
            i = i + 1;
        } else {
            return None;
        }
    }
}

} // verus!
