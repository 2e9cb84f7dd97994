//! Byte-level helpers shared by the builder and the navigator: UTF-8
//! checking, whitespace trimming, scalar classification, string unescaping
//! and decimal integer parsing.

use vstd::prelude::*;
use vstd::string::StringSliceAdditionalSpecFns;
use vstd::utf8::valid_utf8;

use super::error::Error;

verus! {

pub const QUOTE: u8 = 0x22;
pub const BACKSLASH: u8 = 0x5C;
pub const SLASH: u8 = 0x2F;
pub const LBRACE: u8 = 0x7B;
pub const RBRACE: u8 = 0x7D;
pub const LBRACKET: u8 = 0x5B;
pub const RBRACKET: u8 = 0x5D;
pub const COLON: u8 = 0x3A;
pub const COMMA: u8 = 0x2C;
pub const NEWLINE: u8 = 0x0A;

/// `std::str::from_utf8`: `Some` exactly when `bytes` is valid UTF-8, and
/// then a `str` whose UTF-8 encoding is `bytes`.
#[verifier::external_body]
pub(crate) fn str_from_utf8(bytes: &[u8]) -> (res: Option<&str>)
    ensures
        res is Some <==> valid_utf8(bytes@),
        res matches Some(s) ==> s.spec_bytes() == bytes@,
{
    std::str::from_utf8(bytes).ok()
}

/// Whether `bytes` is valid UTF-8.
pub fn is_valid_utf8(bytes: &[u8]) -> (b: bool)
    ensures
        b == valid_utf8(bytes@),
{
    str_from_utf8(bytes).is_some()
}

/// ASCII whitespace as `u8::is_ascii_whitespace` defines it: space, tab,
/// line feed, form feed, carriage return.
pub open spec fn is_ascii_ws(b: u8) -> bool {
    b == 0x20u8 || b == 0x09u8 || b == 0x0Au8 || b == 0x0Cu8 || b == 0x0Du8
}

/// Number of leading ASCII whitespace bytes of `s`.
pub open spec fn ws_prefix_len(s: Seq<u8>) -> nat
    decreases s.len(),
{
    if s.len() > 0 && is_ascii_ws(s[0]) {
        1 + ws_prefix_len(s.drop_first())
    } else {
        0
    }
}

/// Number of trailing ASCII whitespace bytes of `s`.
pub open spec fn ws_suffix_len(s: Seq<u8>) -> nat
    decreases s.len(),
{
    if s.len() > 0 && is_ascii_ws(s.last()) {
        1 + ws_suffix_len(s.drop_last())
    } else {
        0
    }
}

/// `s` without its leading and trailing ASCII whitespace.
pub open spec fn trim_ws(s: Seq<u8>) -> Seq<u8> {
    let t = s.skip(ws_prefix_len(s) as int);
    t.take(t.len() - ws_suffix_len(t))
}

proof fn lemma_ws_prefix(s: Seq<u8>, i: int)
    requires
        0 <= i <= s.len(),
        forall|k: int| 0 <= k < i ==> is_ascii_ws(#[trigger] s[k]),
    ensures
        i == s.len() || !is_ascii_ws(s[i]) ==> ws_prefix_len(s) == i,
        i < s.len() && is_ascii_ws(s[i]) ==> ws_prefix_len(s) > i,
    decreases i,
{
    if i > 0 {
        lemma_ws_prefix(s.drop_first(), i - 1);
    } else if s.len() > 0 && is_ascii_ws(s[0]) {
        assert(ws_prefix_len(s) >= 1);
    }
}

proof fn lemma_ws_suffix(s: Seq<u8>, i: int)
    requires
        0 <= i <= s.len(),
        forall|k: int| s.len() - i <= k < s.len() ==> is_ascii_ws(#[trigger] s[k]),
    ensures
        i == s.len() || !is_ascii_ws(s[s.len() - i - 1]) ==> ws_suffix_len(s) == i,
        i < s.len() && is_ascii_ws(s[s.len() - i - 1]) ==> ws_suffix_len(s) > i,
    decreases i,
{
    if i > 0 {
        let t = s.drop_last();
        assert forall|k: int| t.len() - (i - 1) <= k < t.len() implies is_ascii_ws(
            #[trigger] t[k],
        ) by {
            assert(t[k] == s[k]);
        }
        lemma_ws_suffix(t, i - 1);
        if i < s.len() {
            assert(t[t.len() - (i - 1) - 1] == s[s.len() - i - 1]);
        }
    } else if s.len() > 0 && is_ascii_ws(s.last()) {
        assert(ws_suffix_len(s) >= 1);
    }
}

/// Whether `b` is ASCII whitespace.
pub fn is_ascii_whitespace(b: u8) -> (r: bool)
    ensures
        r == is_ascii_ws(b),
{
    b == 0x20 || b == 0x09 || b == 0x0A || b == 0x0C || b == 0x0D
}

/// `s` with leading and trailing ASCII whitespace removed.
pub fn trim_ascii(s: &[u8]) -> (t: &[u8])
    ensures
        t@ == trim_ws(s@),
        t@.len() <= s@.len(),
{
    let n = s.len();
    let mut i: usize = 0;
    while i < n && is_ascii_whitespace(s[i])
        invariant
            n == s@.len(),
            0 <= i <= n,
            forall|k: int| 0 <= k < i ==> is_ascii_ws(#[trigger] s@[k]),
        decreases n - i,
    {
        i += 1;
    }
    proof {
        lemma_ws_prefix(s@, i as int);
    }
    let rest = vstd::slice::slice_subrange(s, i, n);
    let m = rest.len();
    let mut j: usize = 0;
    while j < m && is_ascii_whitespace(rest[m - 1 - j])
        invariant
            m == rest@.len(),
            0 <= j <= m,
            forall|k: int| m - j <= k < m ==> is_ascii_ws(#[trigger] rest@[k]),
        decreases m - j,
    {
        j += 1;
    }
    proof {
        lemma_ws_suffix(rest@, j as int);
        assert(rest@ =~= s@.skip(i as int));
    }
    vstd::slice::slice_subrange(rest, 0, m - j)
}

/// Appends `seg` to `out`.
pub fn push_all(out: &mut Vec<u8>, seg: &[u8])
    ensures
        final(out)@ == old(out)@ + seg@,
{
    let n = seg.len();
    let mut i: usize = 0;
    while i < n
        invariant
            n == seg@.len(),
            0 <= i <= n,
            out@ == old(out)@ + seg@.take(i as int),
        decreases n - i,
    {
        out.push(seg[i]);
        i += 1;
        assert(seg@.take(i as int) == seg@.take(i - 1).push(seg@[i - 1]));
    }
    assert(seg@.take(n as int) == seg@);
}

pub open spec fn is_hex_digit(b: u8) -> bool {
    (0x30u8 <= b <= 0x39u8) || (0x41u8 <= b <= 0x46u8) || (0x61u8 <= b <= 0x66u8)
}

pub open spec fn hex_digit_value(b: u8) -> int {
    if 0x30u8 <= b <= 0x39u8 {
        b - 0x30
    } else if 0x41u8 <= b <= 0x46u8 {
        b - 0x41 + 10
    } else {
        b - 0x61 + 10
    }
}

/// The value of the four bytes of `b` at `start` read as the four
/// hexadecimal digits of a `\uXXXX` escape. `None` when they run past the
/// end or are not all hex digits.
pub open spec fn hex4_spec(b: Seq<u8>, start: int) -> Option<u32> {
    if start < 0 || start + 4 > b.len() {
        None
    } else if is_hex_digit(b[start]) && is_hex_digit(b[start + 1]) && is_hex_digit(b[start + 2])
        && is_hex_digit(b[start + 3]) {
        Some(
            (hex_digit_value(b[start]) * 4096 + hex_digit_value(b[start + 1]) * 256
                + hex_digit_value(b[start + 2]) * 16 + hex_digit_value(b[start + 3])) as u32,
        )
    } else {
        None
    }
}

fn hex_digit(b: u8) -> (r: Option<u32>)
    ensures
        r is Some <==> is_hex_digit(b),
        r matches Some(v) ==> v == hex_digit_value(b),
{
    if 0x30 <= b && b <= 0x39 {
        Some((b - 0x30) as u32)
    } else if 0x41 <= b && b <= 0x46 {
        Some((b - 0x41 + 10) as u32)
    } else if 0x61 <= b && b <= 0x66 {
        Some((b - 0x61 + 10) as u32)
    } else {
        None
    }
}

/// Reads four hex digits of a `\uXXXX` escape starting at `start`.
pub fn parse_hex4(bytes: &[u8], start: usize) -> (res: Result<u32, Error>)
    ensures
        match res {
            Ok(v) => hex4_spec(bytes@, start as int) == Some(v),
            Err(e) => hex4_spec(bytes@, start as int) is None && e == Error::InvalidEscape,
        },
{
    if start > bytes.len() || bytes.len() - start < 4 {
        return Err(Error::InvalidEscape);
    }
    let d1 = hex_digit(bytes[start + 1]);
    let d2 = hex_digit(bytes[start + 2]);
    let d3 = hex_digit(bytes[start + 3]);
    match (d1, d2, d3) {
        (Some(v1), Some(v2), Some(v3)) => {
            let low = v1 * 256 + v2 * 16 + v3;
            match hex_digit(bytes[start]) {
                Some(v0) => Ok(v0 * 4096 + low),
                None => Err(Error::InvalidEscape),
            }
        },
        _ => Err(Error::InvalidEscape),
    }
}

/// The UTF-8 encoding of a Unicode scalar value.
pub fn encode_scalar_bytes(out: &mut Vec<u8>, cp: u32)
    requires
        vstd::utf8::is_scalar(cp),
    ensures
        final(out)@ == old(out)@ + vstd::utf8::encode_scalar(cp),
{
    if cp <= 0x7F {
        out.push((cp & 0x7F) as u8);
    } else if cp <= 0x7FF {
        out.push(0xC0 | ((cp >> 6) & 0x1F) as u8);
        out.push(0x80 | (cp & 0x3F) as u8);
    } else if cp <= 0xFFFF {
        out.push(0xE0 | ((cp >> 12) & 0x0F) as u8);
        out.push(0x80 | ((cp >> 6) & 0x3F) as u8);
        out.push(0x80 | (cp & 0x3F) as u8);
    } else {
        out.push(0xF0 | ((cp >> 18) & 0x7) as u8);
        out.push(0x80 | ((cp >> 12) & 0x3F) as u8);
        out.push(0x80 | ((cp >> 6) & 0x3F) as u8);
        out.push(0x80 | (cp & 0x3F) as u8);
    }
    assert(final(out)@ =~= old(out)@ + vstd::utf8::encode_scalar(cp));
}

proof fn lemma_encode_scalar_valid(cp: u32)
    requires
        vstd::utf8::is_scalar(cp),
    ensures
        valid_utf8(vstd::utf8::encode_scalar(cp)),
{
    let c = cp as char;
    assert(c as u32 == cp);
    let cs = seq![c];
    assert(cs.drop_first() =~= Seq::<char>::empty());
    assert(vstd::utf8::encode_utf8(cs.drop_first()) =~= Seq::<u8>::empty());
    assert(cs[0] as u32 == cp);
    assert(vstd::utf8::encode_utf8(cs) =~= vstd::utf8::encode_scalar(cp));
    vstd::utf8::encode_utf8_valid_utf8(cs);
}

/// Index of the first backslash at or after `i`, or the length.
pub open spec fn next_backslash(b: Seq<u8>, i: int) -> int
    decreases b.len() - i,
{
    if i < 0 || i >= b.len() {
        b.len() as int
    } else if b[i] == BACKSLASH {
        i
    } else {
        next_backslash(b, i + 1)
    }
}

pub proof fn lemma_next_backslash(b: Seq<u8>, i: int)
    requires
        0 <= i <= b.len(),
    ensures
        i <= next_backslash(b, i) <= b.len(),
        forall|k: int| i <= k < next_backslash(b, i) ==> #[trigger] b[k] != BACKSLASH,
        next_backslash(b, i) < b.len() ==> b[next_backslash(b, i)] == BACKSLASH,
    decreases b.len() - i,
{
    if i < b.len() && b[i] != BACKSLASH {
        lemma_next_backslash(b, i + 1);
    }
}

/// The byte a one-character escape `\e` stands for.
pub open spec fn simple_escape(e: u8) -> Option<u8> {
    if e == QUOTE {
        Some(QUOTE)
    } else if e == BACKSLASH {
        Some(BACKSLASH)
    } else if e == SLASH {
        Some(SLASH)
    } else if e == 0x62u8 {
        Some(0x08u8)
    } else if e == 0x66u8 {
        Some(0x0Cu8)
    } else if e == 0x6Eu8 {
        Some(0x0Au8)
    } else if e == 0x72u8 {
        Some(0x0Du8)
    } else if e == 0x74u8 {
        Some(0x09u8)
    } else {
        None
    }
}

/// `p` prepended to a successful result; an error passes through.
pub open spec fn prepend(p: Seq<u8>, r: Result<Seq<u8>, Error>) -> Result<Seq<u8>, Error> {
    match r {
        Ok(rest) => Ok(p + rest),
        Err(e) => Err(e),
    }
}

/// The code point a surrogate pair stands for.
pub open spec fn surrogate_pair_value(high: u32, low: u32) -> u32 {
    (0x10000 + (high - 0xD800) * 1024 + (low - 0xDC00)) as u32
}

/// The UTF-8 bytes of the JSON string body `b` from position `i` on, with
/// escapes resolved: runs without a backslash must be valid UTF-8 and are
/// kept; `\" \\ \/ \b \f \n \r \t` stand for one byte; `\uXXXX` for a code
/// point (a high surrogate must be followed by `\u` and a low surrogate);
/// anything else is an invalid escape.
pub open spec fn unescape_from(b: Seq<u8>, i: int) -> Result<Seq<u8>, Error>
    decreases b.len() - i,
{
    if i < 0 || i >= b.len() {
        Ok(Seq::empty())
    } else if b[i] != BACKSLASH {
        let j = next_backslash(b, i);
        proof {
            lemma_next_backslash(b, i);
        }
        if j <= i {
            Ok(Seq::empty())
        } else if !valid_utf8(b.subrange(i, j)) {
            Err(Error::InvalidUtf8)
        } else {
            prepend(b.subrange(i, j), unescape_from(b, j))
        }
    } else if i + 1 >= b.len() {
        Err(Error::InvalidEscape)
    } else {
        let e = b[i + 1];
        match simple_escape(e) {
            Some(c) => prepend(seq![c], unescape_from(b, i + 2)),
            None => if e != 0x75u8 {
                Err(Error::InvalidEscape)
            } else {
                match hex4_spec(b, i + 2) {
                    None => Err(Error::InvalidEscape),
                    Some(cp) => if 0xD800 <= cp <= 0xDBFF {
                        if i + 7 < b.len() && b[i + 6] == BACKSLASH && b[i + 7] == 0x75u8 {
                            match hex4_spec(b, i + 8) {
                                None => Err(Error::InvalidEscape),
                                Some(low) => if 0xDC00 <= low <= 0xDFFF {
                                    prepend(
                                        vstd::utf8::encode_scalar(surrogate_pair_value(cp, low)),
                                        unescape_from(b, i + 12),
                                    )
                                } else {
                                    Err(Error::InvalidEscape)
                                },
                            }
                        } else {
                            Err(Error::InvalidEscape)
                        }
                    } else if vstd::utf8::is_scalar(cp) {
                        prepend(vstd::utf8::encode_scalar(cp), unescape_from(b, i + 6))
                    } else {
                        Err(Error::InvalidEscape)
                    },
                }
            },
        }
    }
}

/// The unescaped UTF-8 bytes of the JSON string body `b`.
pub open spec fn unescape_spec(b: Seq<u8>) -> Result<Seq<u8>, Error> {
    unescape_from(b, 0)
}

proof fn lemma_prepend_assoc(p: Seq<u8>, q: Seq<u8>, r: Result<Seq<u8>, Error>)
    ensures
        prepend(p, prepend(q, r)) == prepend(p + q, r),
{
    if let Ok(x) = r {
        assert(p + (q + x) =~= (p + q) + x);
    }
}

/// Resolves the escapes of the JSON string body `bytes` (the text between
/// the quotes), giving UTF-8 bytes.
pub fn unescape_bytes(bytes: &[u8]) -> (res: Result<Vec<u8>, Error>)
    requires
        bytes@.len() <= isize::MAX,
    ensures
        match res {
            Ok(v) => unescape_spec(bytes@) == Ok::<Seq<u8>, Error>(v@) && valid_utf8(v@),
            Err(e) => unescape_spec(bytes@) == Err::<Seq<u8>, Error>(e),
        },
{
    let n = bytes.len();
    let mut out: Vec<u8> = Vec::with_capacity(n);
    let mut i: usize = 0;
    proof {
        assert(out@ =~= Seq::<u8>::empty());
        assert(prepend(out@, unescape_from(bytes@, 0)) == unescape_from(bytes@, 0));
    }
    while i < n
        invariant
            n == bytes@.len(),
            n <= isize::MAX,
            0 <= i <= n,
            valid_utf8(out@),
            unescape_spec(bytes@) == prepend(out@, unescape_from(bytes@, i as int)),
        decreases n - i,
    {
        let ghost old_out = out@;
        let ghost old_i = i as int;
        if bytes[i] != BACKSLASH {
            let start = i;
            while i < n && bytes[i] != BACKSLASH
                invariant
                    n == bytes@.len(),
                    start <= i <= n,
                    forall|k: int| start <= k < i ==> #[trigger] bytes@[k] != BACKSLASH,
                decreases n - i,
            {
                i += 1;
            }
            proof {
                lemma_next_backslash(bytes@, start as int);
                if next_backslash(bytes@, start as int) < i {
                    let k = next_backslash(bytes@, start as int);
                    assert(bytes@[k] != BACKSLASH);
                }
                if i < n {
                    assert(next_backslash(bytes@, start as int) >= i);
                }
            }
            let seg = vstd::slice::slice_subrange(bytes, start, i);
            if str_from_utf8(seg).is_none() {
                return Err(Error::InvalidUtf8);
            }
            push_all(&mut out, seg);
            proof {
                vstd::utf8::valid_utf8_concat(old_out, seg@);
                lemma_prepend_assoc(old_out, seg@, unescape_from(bytes@, i as int));
            }
        } else {
            if i + 1 >= n {
                return Err(Error::InvalidEscape);
            }
            let e = bytes[i + 1];
            let simple: Option<u8> = if e == QUOTE {
                Some(QUOTE)
            } else if e == BACKSLASH {
                Some(BACKSLASH)
            } else if e == SLASH {
                Some(SLASH)
            } else if e == 0x62 {
                Some(0x08)
            } else if e == 0x66 {
                Some(0x0C)
            } else if e == 0x6E {
                Some(0x0A)
            } else if e == 0x72 {
                Some(0x0D)
            } else if e == 0x74 {
                Some(0x09)
            } else {
                None
            };
            match simple {
                Some(c) => {
                    out.push(c);
                    i += 2;
                    proof {
                        assert(valid_utf8(seq![c])) by {
                            lemma_encode_scalar_valid(c as u32);
                            assert(c < 0x80);
                            assert(((c as u32) & 0x7F) as u8 == c) by (bit_vector)
                                requires
                                    c < 0x80,
                            ;
                            assert(vstd::utf8::encode_scalar(c as u32) =~= seq![c]);
                        }
                        vstd::utf8::valid_utf8_concat(old_out, seq![c]);
                        assert(out@ == old_out + seq![c]);
                        lemma_prepend_assoc(old_out, seq![c], unescape_from(bytes@, i as int));
                    }
                },
                None => {
                    if e != 0x75 {
                        return Err(Error::InvalidEscape);
                    }
                    let cp = parse_hex4(bytes, i + 2)?;
                    if 0xD800 <= cp && cp <= 0xDBFF {
                        if i + 7 < n && bytes[i + 6] == BACKSLASH && bytes[i + 7] == 0x75 {
                            let low = parse_hex4(bytes, i + 8)?;
                            if 0xDC00 <= low && low <= 0xDFFF {
                                assert(((cp - 0xD800) as u32) << 10 == (cp - 0xD800) * 1024)
                                    by (bit_vector)
                                    requires
                                        cp <= 0xDBFF,
                                        0xD800 <= cp,
                                ;
                                let c = 0x10000 + ((cp - 0xD800) << 10) + (low - 0xDC00);
                                proof {
                                    assert(c == surrogate_pair_value(cp, low));
                                    lemma_encode_scalar_valid(c);
                                }
                                encode_scalar_bytes(&mut out, c);
                                i += 12;
                                proof {
                                    vstd::utf8::valid_utf8_concat(
                                        old_out,
                                        vstd::utf8::encode_scalar(c),
                                    );
                                    lemma_prepend_assoc(
                                        old_out,
                                        vstd::utf8::encode_scalar(c),
                                        unescape_from(bytes@, i as int),
                                    );
                                }
                            } else {
                                return Err(Error::InvalidEscape);
                            }
                        } else {
                            return Err(Error::InvalidEscape);
                        }
                    } else if cp >= 0xDC00 && cp <= 0xDFFF {
                        return Err(Error::InvalidEscape);
                    } else {
                        proof {
                            lemma_encode_scalar_valid(cp);
                        }
                        encode_scalar_bytes(&mut out, cp);
                        i += 6;
                        proof {
                            vstd::utf8::valid_utf8_concat(old_out, vstd::utf8::encode_scalar(cp));
                            lemma_prepend_assoc(
                                old_out,
                                vstd::utf8::encode_scalar(cp),
                                unescape_from(bytes@, i as int),
                            );
                        }
                    }
                },
            }
        }
    }
    proof {
        assert(out@ + Seq::<u8>::empty() =~= out@);
    }
    Ok(out)
}

/// A `String` holding the UTF-8 bytes `v`.
pub fn string_from_utf8(v: &[u8]) -> (s: String)
    requires
        valid_utf8(v@),
    ensures
        vstd::utf8::encode_utf8(s@) == v@,
{
    match str_from_utf8(v) {
        Some(t) => t.to_owned(),
        None => String::new(),
    }
}

/// Resolves the escapes of the JSON string body `bytes`.
pub fn unescape(bytes: &[u8]) -> (res: Result<String, Error>)
    requires
        bytes@.len() <= isize::MAX,
    ensures
        match res {
            Ok(s) => unescape_spec(bytes@) == Ok::<Seq<u8>, Error>(vstd::utf8::encode_utf8(s@)),
            Err(e) => unescape_spec(bytes@) == Err::<Seq<u8>, Error>(e),
        },
{
    let v = unescape_bytes(bytes)?;
    Ok(string_from_utf8(v.as_slice()))
}

pub open spec fn is_digit(b: u8) -> bool {
    0x30u8 <= b <= 0x39u8
}

pub open spec fn all_digits(d: Seq<u8>) -> bool {
    forall|k: int| 0 <= k < d.len() ==> is_digit(#[trigger] d[k])
}

/// The value of the decimal digits `d`.
pub open spec fn digits_value(d: Seq<u8>) -> int
    decreases d.len(),
{
    if d.len() == 0 {
        0
    } else {
        digits_value(d.drop_last()) * 10 + (d.last() - 0x30)
    }
}

/// `str::parse::<i64>` on the bytes `s`: an optional `+` or `-` sign and at
/// least one decimal digit, with the value in range.
pub open spec fn parse_i64_spec(s: Seq<u8>) -> Option<i64> {
    if s.len() == 0 {
        None
    } else {
        let neg = s[0] == 0x2Du8;
        let d = if s[0] == 0x2Du8 || s[0] == 0x2Bu8 {
            s.drop_first()
        } else {
            s
        };
        if d.len() == 0 || !all_digits(d) {
            None
        } else {
            let v = if neg {
                -digits_value(d)
            } else {
                digits_value(d)
            };
            if i64::MIN <= v <= i64::MAX {
                Some(v as i64)
            } else {
                None
            }
        }
    }
}

/// `str::parse::<usize>` on the bytes `s`: an optional `+` sign and at least
/// one decimal digit, with the value in range.
pub open spec fn parse_usize_spec(s: Seq<u8>) -> Option<usize> {
    let d = if s.len() > 0 && s[0] == 0x2Bu8 {
        s.drop_first()
    } else {
        s
    };
    if d.len() == 0 || !all_digits(d) {
        None
    } else if digits_value(d) <= usize::MAX {
        Some(digits_value(d) as usize)
    } else {
        None
    }
}

proof fn lemma_digits_value_nonneg(d: Seq<u8>)
    requires
        all_digits(d),
    ensures
        digits_value(d) >= 0,
    decreases d.len(),
{
    if d.len() > 0 {
        assert(all_digits(d.drop_last())) by {
            assert forall|k: int| 0 <= k < d.drop_last().len() implies is_digit(
                #[trigger] d.drop_last()[k],
            ) by {
                assert(d.drop_last()[k] == d[k]);
            }
        }
        lemma_digits_value_nonneg(d.drop_last());
        assert(is_digit(d[d.len() - 1]));
    }
}

/// A longer run of digits is worth at least as much as its prefix.
proof fn lemma_digits_value_mono(d: Seq<u8>, i: int)
    requires
        all_digits(d),
        0 <= i <= d.len(),
    ensures
        digits_value(d.take(i)) <= digits_value(d),
    decreases d.len() - i,
{
    if i < d.len() {
        lemma_digits_value_mono(d, i + 1);
        let t = d.take(i + 1);
        assert(t.drop_last() =~= d.take(i));
        assert(all_digits(d.take(i))) by {
            assert forall|k: int| 0 <= k < d.take(i).len() implies is_digit(
                #[trigger] d.take(i)[k],
            ) by {
                assert(d.take(i)[k] == d[k]);
            }
        }
        lemma_digits_value_nonneg(d.take(i));
        assert(is_digit(d[i]));
    } else {
        assert(d.take(i) =~= d);
    }
}

/// Value of the digits `d[start..]`, or `None` once it exceeds `limit`.
fn digits_up_to(d: &[u8], start: usize, limit: u128) -> (r: Option<u128>)
    requires
        start <= d@.len(),
        limit <= u64::MAX,
    ensures
        match r {
            Some(v) => all_digits(d@.skip(start as int)) && v == digits_value(d@.skip(start as int))
                && v <= limit,
            None => !all_digits(d@.skip(start as int)) || digits_value(d@.skip(start as int))
                > limit,
        },
{
    let n = d.len();
    let ghost t = d@.skip(start as int);
    let mut acc: u128 = 0;
    let mut i: usize = start;
    while i < n
        invariant
            n == d@.len(),
            start <= i <= n,
            t == d@.skip(start as int),
            limit <= u64::MAX,
            all_digits(t.take(i - start)),
            acc == digits_value(t.take(i - start)),
            acc <= limit,
        decreases n - i,
    {
        let b = d[i];
        let ghost k = i - start;
        assert(t[k] == b);
        assert(t.take(k + 1).drop_last() =~= t.take(k));
        if b < 0x30 || b > 0x39 {
            assert(!all_digits(t));
            return None;
        }
        assert(all_digits(t.take(k + 1))) by {
            assert forall|q: int| 0 <= q < k + 1 implies is_digit(#[trigger] t.take(k + 1)[q]) by {
                if q < k {
                    assert(t.take(k + 1)[q] == t.take(k)[q]);
                }
            }
        }
        let next = acc * 10 + (b - 0x30) as u128;
        i += 1;
        if next > limit {
            proof {
                if all_digits(t) {
                    lemma_digits_value_mono(t, k + 1);
                }
            }
            return None;
        }
        acc = next;
    }
    assert(t.take(n - start) =~= t);
    Some(acc)
}

/// `str::parse::<i64>` on the bytes `s`.
pub fn parse_i64(s: &[u8]) -> (r: Option<i64>)
    ensures
        r == parse_i64_spec(s@),
{
    if s.len() == 0 {
        return None;
    }
    let neg = s[0] == 0x2D;
    let start: usize = if s[0] == 0x2D || s[0] == 0x2B {
        1
    } else {
        0
    };
    proof {
        if start == 1 {
            assert(s@.skip(1) =~= s@.drop_first());
        } else {
            assert(s@.skip(0) =~= s@);
        }
    }
    if start == s.len() {
        return None;
    }
    let limit: u128 = if neg {
        9223372036854775808
    } else {
        9223372036854775807
    };
    match digits_up_to(s, start, limit) {
        None => None,
        Some(v) => if neg {
            if v == 9223372036854775808 {
                Some(i64::MIN)
            } else {
                Some(-(v as i64))
            }
        } else {
            Some(v as i64)
        },
    }
}

/// `str::parse::<usize>` on the bytes `s`.
pub fn parse_usize(s: &[u8]) -> (r: Option<usize>)
    ensures
        r == parse_usize_spec(s@),
{
    let start: usize = if s.len() > 0 && s[0] == 0x2B {
        1
    } else {
        0
    };
    proof {
        if start == 1 {
            assert(s@.skip(1) =~= s@.drop_first());
        } else {
            assert(s@.skip(0) =~= s@);
        }
    }
    if start == s.len() {
        return None;
    }
    match digits_up_to(s, start, usize::MAX as u128) {
        Some(v) => Some(v as usize),
        None => None,
    }
}

/// Whether `a` and `b` hold the same bytes.
pub fn bytes_eq(a: &[u8], b: &[u8]) -> (r: bool)
    ensures
        r == (a@ == b@),
{
    if a.len() != b.len() {
        return false;
    }
    let n = a.len();
    let mut i: usize = 0;
    while i < n
        invariant
            n == a@.len(),
            n == b@.len(),
            0 <= i <= n,
            forall|k: int| 0 <= k < i ==> a@[k] == b@[k],
        decreases n - i,
    {
        if a[i] != b[i] {
            return false;
        }
        i += 1;
    }
    assert(a@ =~= b@);
    true
}


/// The decimal digits of `n`, most significant first, without leading
/// zeros (`0` is one digit).
pub open spec fn decimal(n: nat) -> Seq<u8>
    decreases n,
{
    if n < 10 {
        seq![(0x30 + n) as u8]
    } else {
        decimal(n / 10).push((0x30 + n % 10) as u8)
    }
}

/// The decimal text of `n`, with a leading `-` when it is negative.
pub open spec fn signed_decimal(n: int) -> Seq<u8> {
    if n < 0 {
        seq![0x2Du8] + decimal((-n) as nat)
    } else {
        decimal(n as nat)
    }
}

/// A single ASCII byte is valid UTF-8.
pub proof fn lemma_ascii_byte_valid(b: u8)
    requires
        b < 0x80,
    ensures
        valid_utf8(seq![b]),
{
    reveal_with_fuel(valid_utf8, 2);
    assert(vstd::utf8::pop_first_scalar(seq![b]) =~= Seq::<u8>::empty());
}

pub proof fn lemma_decimal_valid(n: nat)
    ensures
        valid_utf8(decimal(n)),
    decreases n,
{
    if n < 10 {
        lemma_ascii_byte_valid((0x30 + n) as u8);
    } else {
        lemma_decimal_valid(n / 10);
        let d = (0x30 + n % 10) as u8;
        lemma_ascii_byte_valid(d);
        vstd::utf8::valid_utf8_concat(decimal(n / 10), seq![d]);
        assert(decimal(n / 10) + seq![d] =~= decimal(n / 10).push(d));
    }
}

/// Appends the decimal digits of `n`.
pub fn push_decimal(out: &mut Vec<u8>, n: u64)
    ensures
        final(out)@ == old(out)@ + decimal(n as nat),
    decreases n,
{
    if n >= 10 {
        push_decimal(out, n / 10);
    }
    out.push(0x30 + (n % 10) as u8);
    proof {
        if n >= 10 {
            assert(old(out)@ + decimal((n / 10) as nat) + seq![(0x30 + n % 10) as u8]
                =~= old(out)@ + decimal(n as nat));
        } else {
            assert(old(out)@.push((0x30 + n) as u8) =~= old(out)@ + decimal(n as nat));
        }
    }
}

/// Appends the decimal text of `n`, with a `-` when it is negative.
pub fn push_signed_decimal(out: &mut Vec<u8>, n: i64)
    ensures
        final(out)@ == old(out)@ + signed_decimal(n as int),
{
    if n < 0 {
        out.push(0x2D);
        let m: u64 = if n == i64::MIN {
            0x8000_0000_0000_0000
        } else {
            (-n) as u64
        };
        let ghost mid = out@;
        push_decimal(out, m);
        proof {
            assert(mid + decimal(m as nat) =~= old(out)@ + (seq![0x2Du8] + decimal(m as nat)));
        }
    } else {
        push_decimal(out, n as u64);
    }
}

/// Appends the UTF-8 bytes of `s`.
pub fn push_str(out: &mut Vec<u8>, s: &str)
    ensures
        final(out)@ == old(out)@ + s.spec_bytes(),
{
    push_all(out, s.as_bytes());
}


pub proof fn lemma_signed_decimal_valid(n: int)
    ensures
        valid_utf8(signed_decimal(n)),
{
    broadcast use vstd::utf8::valid_utf8_concat;

    if n < 0 {
        lemma_ascii_byte_valid(0x2D);
        lemma_decimal_valid((-n) as nat);
    } else {
        lemma_decimal_valid(n as nat);
    }
}

/// The decimal text of `n` is one or more digits that read back as `n`.
pub proof fn lemma_decimal_digits(n: nat)
    ensures
        decimal(n).len() >= 1,
        all_digits(decimal(n)),
        digits_value(decimal(n)) == n,
    decreases n,
{
    if n >= 10 {
        lemma_decimal_digits(n / 10);
        let d = decimal(n / 10);
        let e = d.push((0x30 + n % 10) as u8);
        assert(e.drop_last() =~= d);
        assert forall|k: int| 0 <= k < e.len() implies is_digit(#[trigger] e[k]) by {
            if k < d.len() {
                assert(e[k] == d[k]);
            }
        }
        assert(e.last() == (0x30 + n % 10) as u8);
        assert(e.last() - 0x30 == n % 10);
        assert((n / 10) * 10 + n % 10 == n);
        assert(decimal(n) == e);
        assert(digits_value(e) == digits_value(d) * 10 + (e.last() - 0x30));
    } else {
        let e = decimal(n);
        assert(e.drop_last() =~= Seq::<u8>::empty());
        assert(e.last() - 0x30 == n);
        assert(digits_value(e) == digits_value(e.drop_last()) * 10 + (e.last() - 0x30));
    }
}

/// Valid UTF-8 cut just after an ASCII byte gives two valid pieces.
pub proof fn lemma_ascii_cut(bytes: Seq<u8>, pos: int)
    requires
        valid_utf8(bytes),
        0 <= pos < bytes.len(),
        bytes[pos] < 0x80,
    ensures
        valid_utf8(bytes.subrange(0, pos + 1)),
        valid_utf8(bytes.subrange(pos + 1, bytes.len() as int)),
{
    vstd::utf8::is_char_boundary_iff_not_is_continuation_byte(bytes, pos);
    vstd::utf8::valid_utf8_split(bytes, pos);
    let t = bytes.subrange(pos, bytes.len() as int);
    assert(t[0] == bytes[pos]);
    assert(vstd::utf8::pop_first_scalar(t) =~= bytes.subrange(pos + 1, bytes.len() as int));
    lemma_ascii_byte_valid(bytes[pos]);
    vstd::utf8::valid_utf8_concat(bytes.subrange(0, pos), seq![bytes[pos]]);
    assert(bytes.subrange(0, pos) + seq![bytes[pos]] =~= bytes.subrange(0, pos + 1));
}

} // verus!
