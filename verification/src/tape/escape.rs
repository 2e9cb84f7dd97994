//! How a JSON encoder writes a string's characters inside a string
//! literal, and the law that unescaping that text gives the string's UTF-8
//! bytes back.

use vstd::prelude::*;
use vstd::utf8::{encode_scalar, encode_utf8, is_scalar, valid_utf8};

use super::error::Error;
use super::text::{
    hex4_spec, hex_digit_value, is_hex_digit, lemma_next_backslash, next_backslash, prepend,
    simple_escape, surrogate_pair_value, unescape_from, unescape_spec, BACKSLASH, QUOTE,
};

verus! {

/// The lowercase hexadecimal digit for `d`, below 16.
pub open spec fn hex_lower(d: int) -> u8 {
    if d < 10 {
        (0x30 + d) as u8
    } else {
        (0x61 + d - 10) as u8
    }
}

/// How a JSON encoder (as `serde_json` does) writes the character `c`
/// inside a string literal: `"` and `\` behind a backslash; backspace,
/// form feed, newline, carriage return and tab as `\b \f \n \r \t`; the
/// other control characters as `\u00XX` in lowercase hex; anything else as
/// its UTF-8 bytes.
pub open spec fn json_escape_char(c: char) -> Seq<u8> {
    let v = c as u32;
    if v == 0x22 {
        seq![BACKSLASH, QUOTE]
    } else if v == 0x5C {
        seq![BACKSLASH, BACKSLASH]
    } else if v == 0x08 {
        seq![BACKSLASH, 0x62u8]
    } else if v == 0x0C {
        seq![BACKSLASH, 0x66u8]
    } else if v == 0x0A {
        seq![BACKSLASH, 0x6Eu8]
    } else if v == 0x0D {
        seq![BACKSLASH, 0x72u8]
    } else if v == 0x09 {
        seq![BACKSLASH, 0x74u8]
    } else if v < 0x20 {
        seq![BACKSLASH, 0x75u8, 0x30u8, 0x30u8, hex_lower(v as int / 16), hex_lower(v as int % 16)]
    } else {
        encode_scalar(v)
    }
}

/// The body of the JSON string literal for `s` (the text between the
/// quotes).
pub open spec fn json_escape(s: Seq<char>) -> Seq<u8>
    decreases s.len(),
{
    if s.len() == 0 {
        Seq::empty()
    } else {
        json_escape_char(s[0]) + json_escape(s.drop_first())
    }
}

/// The first backslash from a position within `r` is found at the same
/// place after a prefix.
proof fn lemma_next_backslash_shift(p: Seq<u8>, r: Seq<u8>, k: int)
    requires
        0 <= k,
    ensures
        next_backslash(p + r, p.len() + k) == p.len() + next_backslash(r, k),
    decreases r.len() - k,
{
    let e = p + r;
    if k < r.len() {
        assert(e[p.len() + k] == r[k]);
        if r[k] != BACKSLASH {
            lemma_next_backslash_shift(p, r, k + 1);
        }
    }
}

/// Unescaping from a position within `r` does not see a prefix.
proof fn lemma_unescape_shift(p: Seq<u8>, r: Seq<u8>, k: int)
    requires
        0 <= k,
    ensures
        unescape_from(p + r, p.len() + k) == unescape_from(r, k),
    decreases r.len() - k,
{
    let e = p + r;
    let n = p.len() as int;
    let i = n + k;
    if k < r.len() {
        assert(e[i] == r[k]);
        if r[k] != BACKSLASH {
            lemma_next_backslash_shift(p, r, k);
            lemma_next_backslash(r, k);
            let jr = next_backslash(r, k);
            if jr > k {
                assert(e.subrange(i, n + jr) =~= r.subrange(k, jr));
                lemma_unescape_shift(p, r, jr);
            }
        } else if k + 1 < r.len() {
            assert(e[i + 1] == r[k + 1]);
            assert forall|t: int| k + 2 <= t implies #[trigger] hex4_spec(e, n + t) == hex4_spec(r, t) by {
                if t + 4 <= r.len() {
                    assert(e[n + t] == r[t]);
                    assert(e[n + t + 1] == r[t + 1]);
                    assert(e[n + t + 2] == r[t + 2]);
                    assert(e[n + t + 3] == r[t + 3]);
                }
            }
            assert(hex4_spec(e, i + 2) == hex4_spec(r, k + 2));
            assert(hex4_spec(e, i + 8) == hex4_spec(r, k + 8));
            if k + 7 < r.len() {
                assert(e[i + 6] == r[k + 6]);
                assert(e[i + 7] == r[k + 7]);
            }
            lemma_unescape_shift(p, r, k + 2);
            if k + 6 <= r.len() {
                lemma_unescape_shift(p, r, k + 6);
            }
            if k + 12 <= r.len() {
                lemma_unescape_shift(p, r, k + 12);
            }
        }
    }
}

/// Text without a backslash that is valid UTF-8 unescapes to itself, in
/// front of whatever follows it.
proof fn lemma_plain_prefix(p: Seq<u8>, r: Seq<u8>)
    requires
        valid_utf8(p),
        forall|k: int| 0 <= k < p.len() ==> #[trigger] p[k] != BACKSLASH,
        unescape_from(r, 0) is Ok,
    ensures
        unescape_from(p + r, 0) == prepend(p, unescape_from(r, 0)),
{
    let e = p + r;
    let n = p.len() as int;
    if n == 0 {
        assert(e =~= r);
        assert(p + unescape_from(r, 0)->Ok_0 =~= unescape_from(r, 0)->Ok_0);
    } else {
        assert(e[0] == p[0]);
        lemma_next_backslash_prefix(p, r, 0);
        lemma_next_backslash(r, 0);
        lemma_next_backslash(e, 0);
        let jr = next_backslash(r, 0);
        let j = next_backslash(e, 0);
        assert(j == n + jr);
        lemma_unescape_shift(p, r, jr);
        if jr == 0 {
            assert(e.subrange(0, j) =~= p);
        } else {
            assert(r[0] != BACKSLASH);
            let run = r.subrange(0, jr);
            assert(valid_utf8(run));
            vstd::utf8::valid_utf8_concat(p, run);
            assert(e.subrange(0, j) =~= p + run);
            let rest = unescape_from(r, jr)->Ok_0;
            assert(p + run + rest =~= p + (run + rest));
        }
    }
}

/// Within a prefix without a backslash, the first backslash is found
/// where it is found in what follows.
proof fn lemma_next_backslash_prefix(p: Seq<u8>, r: Seq<u8>, i: int)
    requires
        0 <= i <= p.len(),
        forall|k: int| 0 <= k < p.len() ==> #[trigger] p[k] != BACKSLASH,
    ensures
        next_backslash(p + r, i) == p.len() + next_backslash(r, 0),
    decreases p.len() - i,
{
    if i < p.len() {
        assert((p + r)[i] == p[i]);
        lemma_next_backslash_prefix(p, r, i + 1);
    } else {
        lemma_next_backslash_shift(p, r, 0);
    }
}

/// The UTF-8 bytes of a character at or above `0x80` are all at or above
/// `0x80`; below it, the one byte is the character.
proof fn lemma_encode_scalar_bytes(v: u32)
    requires
        is_scalar(v),
    ensures
        v <= 0x7F ==> encode_scalar(v) == seq![v as u8],
        v > 0x7F ==> forall|k: int|
            0 <= k < encode_scalar(v).len() ==> #[trigger] encode_scalar(v)[k] >= 0x80,
        1 <= encode_scalar(v).len() <= 4,
{
    if v <= 0x7F {
        assert(((v & 0x7Fu32) as u8) == v as u8) by (bit_vector)
            requires
                v <= 0x7Fu32,
        ;
    } else {
        assert(forall|x: u32| #[trigger] (0x80u8 | ((x & 0x3Fu32) as u8)) >= 0x80u8) by (bit_vector);
        assert(forall|x: u32| #[trigger] (0x80u8 | (((x >> 6u32) & 0x3Fu32) as u8)) >= 0x80u8)
            by (bit_vector);
        assert(forall|x: u32| #[trigger] (0x80u8 | (((x >> 12u32) & 0x3Fu32) as u8)) >= 0x80u8)
            by (bit_vector);
        assert(forall|x: u32| #[trigger] (0xC0u8 | (((x >> 6u32) & 0x1Fu32) as u8)) >= 0x80u8)
            by (bit_vector);
        assert(forall|x: u32| #[trigger] (0xE0u8 | (((x >> 12u32) & 0x0Fu32) as u8)) >= 0x80u8)
            by (bit_vector);
        assert(forall|x: u32| #[trigger] (0xF0u8 | (((x >> 18u32) & 0x7u32) as u8)) >= 0x80u8)
            by (bit_vector);
    }
}

/// The one-character text of `c` is valid UTF-8.
proof fn lemma_encode_scalar_valid(c: char)
    ensures
        valid_utf8(encode_scalar(c as u32)),
{
    let cs = seq![c];
    assert(cs.drop_first() =~= Seq::<char>::empty());
    assert(cs[0] == c);
    assert(encode_utf8(Seq::<char>::empty()) == Seq::<u8>::empty());
    assert(encode_utf8(cs) =~= encode_scalar(c as u32));
    vstd::utf8::encode_utf8_valid_utf8(cs);
}

proof fn lemma_hex_lower(d: int)
    requires
        0 <= d < 16,
    ensures
        is_hex_digit(hex_lower(d)),
        hex_digit_value(hex_lower(d)) == d,
{
}

/// Unescaping the JSON string body that an encoder writes for `s` gives
/// back exactly the UTF-8 bytes of `s`, and these are never longer than
/// the body.
pub proof fn lemma_json_escape_roundtrip(s: Seq<char>)
    ensures
        unescape_spec(json_escape(s)) == Ok::<Seq<u8>, Error>(encode_utf8(s)),
        encode_utf8(s).len() <= json_escape(s).len(),
    decreases s.len(),
{
    if s.len() > 0 {
        let c = s[0];
        let v = c as u32;
        let tail = s.drop_first();
        lemma_json_escape_roundtrip(tail);
        let r = json_escape(tail);
        let piece = json_escape_char(c);
        let e = piece + r;
        assert(json_escape(s) == e);
        vstd::utf8::char_is_scalar(c);
        lemma_encode_scalar_bytes(v);
        let x = encode_scalar(v);
        if v >= 0x20 && v != 0x22 && v != 0x5C {
            assert(piece == x);
            lemma_encode_scalar_valid(c);
            assert forall|k: int| 0 <= k < piece.len() implies #[trigger] piece[k] != BACKSLASH by {
                if v <= 0x7F {
                    assert(piece[k] == v as u8);
                }
            }
            lemma_plain_prefix(piece, r);
        } else if v < 0x20 && v != 0x08 && v != 0x0C && v != 0x0A && v != 0x0D && v != 0x09 {
            lemma_hex_lower(v as int / 16);
            lemma_hex_lower(v as int % 16);
            assert(e[0] == BACKSLASH);
            assert(e[1] == 0x75u8);
            assert(e[2] == 0x30u8 && e[3] == 0x30u8);
            assert(e[4] == hex_lower(v as int / 16) && e[5] == hex_lower(v as int % 16));
            assert(hex4_spec(e, 2) == Some(v));
            lemma_unescape_shift(piece, r, 0);
        } else {
            assert(e[0] == BACKSLASH);
            assert(e[1] == piece[1]);
            assert(simple_escape(piece[1]) == Some(v as u8));
            lemma_unescape_shift(piece, r, 0);
        }
        assert(unescape_from(e, 0) == prepend(x, unescape_from(r, 0)));
        assert(encode_utf8(s) == x + encode_utf8(tail));
    }
}

/// Whether `p` is one way a JSON string literal may write the character
/// `c`: its UTF-8 bytes (when `c` is not `"`, `\` or a control character);
/// a one-character escape (`\" \\ \/ \b \f \n \r \t`) standing for it;
/// `\uXXXX` with its code point in hex digits of either case, when it is
/// in the Basic Multilingual Plane; or, above it, the `\uXXXX\uXXXX`
/// surrogate pair for it.
pub open spec fn writes_char(c: char, p: Seq<u8>) -> bool {
    let v = c as u32;
    ||| (v >= 0x20 && v != 0x22 && v != 0x5C && p == encode_scalar(v))
    ||| (p.len() == 2 && p[0] == BACKSLASH && simple_escape(p[1]) == Some(v as u8) && v < 0x80)
    ||| (p.len() == 6 && p[0] == BACKSLASH && p[1] == 0x75u8 && hex4_spec(p, 2) == Some(v) && v
        <= 0xFFFF)
    ||| {
        &&& p.len() == 12
        &&& p[0] == BACKSLASH && p[1] == 0x75u8 && p[6] == BACKSLASH && p[7] == 0x75u8
        &&& hex4_spec(p, 2) is Some && hex4_spec(p, 8) is Some
        &&& 0xD800 <= hex4_spec(p, 2)->Some_0 <= 0xDBFF
        &&& 0xDC00 <= hex4_spec(p, 8)->Some_0 <= 0xDFFF
        &&& surrogate_pair_value(hex4_spec(p, 2)->Some_0, hex4_spec(p, 8)->Some_0) == v
    }
}

/// The pieces `ps`, one after another.
pub open spec fn joined(ps: Seq<Seq<u8>>) -> Seq<u8>
    decreases ps.len(),
{
    if ps.len() == 0 {
        Seq::empty()
    } else {
        ps[0] + joined(ps.drop_first())
    }
}

/// The four bytes at `start` of `p` are those of `p + r`.
proof fn lemma_hex4_prefix(p: Seq<u8>, r: Seq<u8>, start: int)
    requires
        0 <= start,
        start + 4 <= p.len(),
    ensures
        hex4_spec(p + r, start) == hex4_spec(p, start),
{
    assert((p + r)[start] == p[start]);
    assert((p + r)[start + 1] == p[start + 1]);
    assert((p + r)[start + 2] == p[start + 2]);
    assert((p + r)[start + 3] == p[start + 3]);
}

/// Unescaping any JSON string body that writes the characters of `s`,
/// each in any of the ways the JSON grammar allows (`ps[i]` writing
/// `s[i]`), gives back exactly the UTF-8 bytes of `s`, and these are never
/// longer than the body.
pub proof fn lemma_unescape_any_escaping(s: Seq<char>, ps: Seq<Seq<u8>>)
    requires
        ps.len() == s.len(),
        forall|i: int| 0 <= i < s.len() ==> writes_char(#[trigger] s[i], ps[i]),
    ensures
        unescape_spec(joined(ps)) == Ok::<Seq<u8>, Error>(encode_utf8(s)),
        encode_utf8(s).len() <= joined(ps).len(),
    decreases s.len(),
{
    if s.len() > 0 {
        let c = s[0];
        let v = c as u32;
        let tail = s.drop_first();
        let pt = ps.drop_first();
        assert forall|i: int| 0 <= i < tail.len() implies writes_char(#[trigger] tail[i], pt[i]) by {
            assert(tail[i] == s[i + 1]);
            assert(pt[i] == ps[i + 1]);
        }
        lemma_unescape_any_escaping(tail, pt);
        let r = joined(pt);
        let piece = ps[0];
        assert(writes_char(s[0], ps[0]));
        let e = piece + r;
        assert(joined(ps) == e);
        vstd::utf8::char_is_scalar(c);
        lemma_encode_scalar_bytes(v);
        let x = encode_scalar(v);
        if v >= 0x20 && v != 0x22 && v != 0x5C && piece == x {
            lemma_encode_scalar_valid(c);
            assert forall|k: int| 0 <= k < piece.len() implies #[trigger] piece[k] != BACKSLASH by {
                if v <= 0x7F {
                    assert(piece[k] == v as u8);
                }
            }
            lemma_plain_prefix(piece, r);
        } else if piece.len() == 2 && piece[0] == BACKSLASH && simple_escape(piece[1]) == Some(
            v as u8,
        ) && v < 0x80 {
            assert(e[0] == BACKSLASH);
            assert(e[1] == piece[1]);
            lemma_unescape_shift(piece, r, 0);
        } else if piece.len() == 6 && piece[0] == BACKSLASH && piece[1] == 0x75u8 && hex4_spec(
            piece,
            2,
        ) == Some(v) && v <= 0xFFFF {
            assert(e[0] == BACKSLASH);
            assert(e[1] == 0x75u8);
            assert(simple_escape(0x75u8) is None);
            lemma_hex4_prefix(piece, r, 2);
            lemma_unescape_shift(piece, r, 0);
        } else {
            let hi = hex4_spec(piece, 2)->Some_0;
            let lo = hex4_spec(piece, 8)->Some_0;
            assert(e[0] == BACKSLASH);
            assert(e[1] == 0x75u8);
            assert(e[6] == BACKSLASH);
            assert(e[7] == 0x75u8);
            assert(simple_escape(0x75u8) is None);
            lemma_hex4_prefix(piece, r, 2);
            lemma_hex4_prefix(piece, r, 8);
            lemma_unescape_shift(piece, r, 0);
        }
        assert(unescape_from(e, 0) == prepend(x, unescape_from(r, 0)));
        assert(encode_utf8(s) == x + encode_utf8(tail));
    }
}

/// The uppercase hexadecimal digit for `d`, below 16.
pub open spec fn hex_upper(d: int) -> u8 {
    if d < 10 {
        (0x30 + d) as u8
    } else {
        (0x41 + d - 10) as u8
    }
}

/// The hex digit for `d`, in upper or lower case.
pub open spec fn hex_in_case(d: int, upper: bool) -> u8 {
    if upper {
        hex_upper(d)
    } else {
        hex_lower(d)
    }
}

/// Every hex digit, `0`-`9`, `A`-`F` or `a`-`f`, is one, with its usual
/// value; no other byte is.
pub proof fn lemma_hex_digit_bytes(b: u8)
    ensures
        is_hex_digit(b) <==> (0x30 <= b <= 0x39 || 0x41 <= b <= 0x46 || 0x61 <= b <= 0x66),
        0x30 <= b <= 0x39 ==> hex_digit_value(b) == b - 0x30,
        0x41 <= b <= 0x46 ==> hex_digit_value(b) == b - 0x41 + 10,
        0x61 <= b <= 0x66 ==> hex_digit_value(b) == b - 0x61 + 10,
{
}

/// Four hex digits, each written in either case, read as the number they
/// write, most significant first.
pub proof fn lemma_hex4_either_case(
    d0: int,
    d1: int,
    d2: int,
    d3: int,
    u0: bool,
    u1: bool,
    u2: bool,
    u3: bool,
)
    requires
        0 <= d0 < 16,
        0 <= d1 < 16,
        0 <= d2 < 16,
        0 <= d3 < 16,
    ensures
        hex4_spec(
            seq![hex_in_case(d0, u0), hex_in_case(d1, u1), hex_in_case(d2, u2), hex_in_case(d3, u3)],
            0,
        ) == Some((d0 * 4096 + d1 * 256 + d2 * 16 + d3) as u32),
{
    let b = seq![hex_in_case(d0, u0), hex_in_case(d1, u1), hex_in_case(d2, u2), hex_in_case(d3, u3)];
    assert(is_hex_digit(b[0]) && hex_digit_value(b[0]) == d0);
    assert(is_hex_digit(b[1]) && hex_digit_value(b[1]) == d1);
    assert(is_hex_digit(b[2]) && hex_digit_value(b[2]) == d2);
    assert(is_hex_digit(b[3]) && hex_digit_value(b[3]) == d3);
}

/// A `\uXXXX` escape of a character up to U+FFFF, its four hex digits in
/// any mix of cases, unescapes to that character's UTF-8 bytes.
pub proof fn lemma_u_escape_any_case(c: char, u0: bool, u1: bool, u2: bool, u3: bool)
    requires
        (c as u32) <= 0xFFFF,
    ensures
        unescape_spec(
            seq![
                BACKSLASH,
                0x75u8,
                hex_in_case((c as u32) as int / 4096, u0),
                hex_in_case(((c as u32) as int / 256) % 16, u1),
                hex_in_case(((c as u32) as int / 16) % 16, u2),
                hex_in_case((c as u32) as int % 16, u3),
            ],
        ) == Ok::<Seq<u8>, Error>(encode_scalar(c as u32)),
{
    let v = (c as u32) as int;
    let d0 = v / 4096;
    let d1 = (v / 256) % 16;
    let d2 = (v / 16) % 16;
    let d3 = v % 16;
    assert(d0 * 4096 + d1 * 256 + d2 * 16 + d3 == v);
    let p = seq![
        BACKSLASH,
        0x75u8,
        hex_in_case(d0, u0),
        hex_in_case(d1, u1),
        hex_in_case(d2, u2),
        hex_in_case(d3, u3),
    ];
    lemma_hex4_either_case(d0, d1, d2, d3, u0, u1, u2, u3);
    let h = seq![hex_in_case(d0, u0), hex_in_case(d1, u1), hex_in_case(d2, u2), hex_in_case(d3, u3)];
    assert(p.subrange(2, 6) =~= h);
    assert(hex4_spec(p, 2) == hex4_spec(h, 0));
    assert(writes_char(c, p));
    let s = seq![c];
    let ps = seq![p];
    lemma_unescape_any_escaping(s, ps);
    assert(ps.drop_first() =~= Seq::<Seq<u8>>::empty());
    assert(joined(Seq::<Seq<u8>>::empty()) == Seq::<u8>::empty());
    assert(joined(ps) =~= p);
    assert(s.drop_first() =~= Seq::<char>::empty());
    assert(encode_utf8(Seq::<char>::empty()) == Seq::<u8>::empty());
    assert(encode_utf8(s) =~= encode_scalar(c as u32));
}

} // verus!
