//! GPU-vs-CPU tape comparison: one function so every caller compares tapes
//! the same way, with the same undefined-slot exclusions.

use vstd::prelude::*;
use vstd::utf8::valid_utf8;

use super::storage::Tape;
use super::builder::is_open_bracket;
use super::text::{
    decimal, lemma_decimal_valid, lemma_signed_decimal_valid, push_decimal, push_signed_decimal,
    push_str, signed_decimal, string_from_utf8, COMMA, LBRACE, LBRACKET, NEWLINE,
};
use vstd::string::StringSliceAdditionalSpecFns;

verus! {

/// Which array a `TapeDiff` was found in.
#[derive(Debug, Clone, Copy, PartialEq, Eq, Structural)]
pub enum DiffField {
    /// `Tape::structural`: compared at every index.
    StructuralArray,
    /// `Tape::pair_pos`: compared only at opener (`{`/`[`) indices among
    /// the real entries.
    PairPos,
    /// The two tapes have different `Tape::len()`.
    Length,
}

/// The first mismatch found by `diff_tapes`, with enough context to print
/// directly.
#[derive(Debug, Clone)]
pub struct TapeDiff {
    pub index: usize,
    pub field: DiffField,
    pub a: i32,
    pub b: i32,
    /// A short window of the original input around the mismatch's byte
    /// offset, or empty when no byte offset applies (e.g. a length
    /// mismatch).
    pub context: String,
}

/// What `String::from_utf8_lossy` makes of `bytes`.
pub uninterp spec fn utf8_lossy(bytes: Seq<u8>) -> Seq<char>;

/// `String::from_utf8_lossy`: the text of `bytes`, each invalid sequence
/// replaced by U+FFFD; for valid UTF-8, exactly its decoding.
#[verifier::external_body]
fn lossy_string(bytes: &[u8]) -> (s: String)
    ensures
        s@ == utf8_lossy(bytes@),
        valid_utf8(bytes@) ==> s@ == vstd::utf8::decode_utf8(bytes@),
{
    String::from_utf8_lossy(bytes).into_owned()
}

/// The window of `input` within 16 bytes of `byte_pos`, as text.
pub open spec fn context_spec(input: Seq<u8>, byte_pos: Option<int>) -> Seq<char> {
    match byte_pos {
        Some(p) => if 0 <= p < input.len() {
            let start = if p < 16 {
                0
            } else {
                p - 16
            };
            let end = if p + 16 > input.len() {
                input.len() as int
            } else {
                p + 16
            };
            utf8_lossy(input.subrange(start, end))
        } else {
            Seq::empty()
        },
        None => Seq::empty(),
    }
}

fn context_near(input: &[u8], byte_pos: Option<usize>) -> (s: String)
    ensures
        s@ == context_spec(
            input@,
            match byte_pos {
                Some(p) => Some(p as int),
                None => None,
            },
        ),
{
    match byte_pos {
        Some(p) => {
            if p < input.len() {
                let start = if p < 16 {
                    0
                } else {
                    p - 16
                };
                let end = if input.len() - p < 16 {
                    input.len()
                } else {
                    p + 16
                };
                lossy_string(vstd::slice::slice_subrange(input, start, end))
            } else {
                String::new()
            }
        },
        None => String::new(),
    }
}

/// The character tape index `idx` of `structural` reads as, for a real
/// entry: the input byte at its 1-based offset (a newline as `,`), or `0`
/// when out of range.
pub open spec fn tape_char_spec(input: Seq<u8>, structural: Seq<i32>, idx: int) -> u8 {
    let pos = structural[idx] - 1;
    if pos < 0 || pos >= input.len() {
        0
    } else if input[pos] == NEWLINE {
        COMMA
    } else {
        input[pos]
    }
}

fn tape_char(input: &[u8], t: &Tape, idx: usize) -> (c: u8)
    requires
        idx < t.structural@.len(),
    ensures
        c == tape_char_spec(input@, t.structural@, idx as int),
{
    let pos = t.structural.get(idx) as i64 - 1;
    if pos < 0 {
        return 0;
    }
    let p = pos as usize;
    if p >= input.len() {
        return 0;
    }
    let c = input[p];
    if c == NEWLINE {
        COMMA
    } else {
        c
    }
}

/// The byte offset a mismatch at the real entry holding `s` points at.
pub open spec fn entry_byte(s: i32) -> int {
    if s - 1 < 0 {
        0
    } else {
        s - 1
    }
}

/// Index of the first `structural` mismatch at or after `i`, or the length.
pub open spec fn first_structural_diff(a: Seq<i32>, b: Seq<i32>, i: int) -> int
    decreases a.len() - i,
{
    if i < 0 || i >= a.len() {
        a.len() as int
    } else if a[i] != b[i] {
        i
    } else {
        first_structural_diff(a, b, i + 1)
    }
}

/// Index of the first opener entry at or after `i` (before the artificial
/// last entry) where `pair_pos` differs, or `a_s.len() - 1`.
pub open spec fn first_pair_diff(
    input: Seq<u8>,
    a_s: Seq<i32>,
    a_p: Seq<i32>,
    b_p: Seq<i32>,
    i: int,
) -> int
    decreases a_s.len() - i,
{
    if i < 1 || i >= a_s.len() - 1 {
        a_s.len() - 1
    } else {
        let c = tape_char_spec(input, a_s, i);
        if (c == LBRACE || c == LBRACKET) && a_p[i] != b_p[i] {
            i
        } else {
            first_pair_diff(input, a_s, a_p, b_p, i + 1)
        }
    }
}

/// The first mismatch between two tapes for the same input, as
/// (index, field, a, b, context): a length difference first, then the
/// first `structural` difference, then the first `pair_pos` difference at
/// an opener among the real entries. `depth` and every other `pair_pos`
/// slot are never compared.
pub open spec fn diff_spec(
    input: Seq<u8>,
    a_s: Seq<i32>,
    a_p: Seq<i32>,
    b_s: Seq<i32>,
    b_p: Seq<i32>,
) -> Option<(usize, DiffField, i32, i32, Seq<char>)> {
    let n = a_s.len() as int;
    if a_s.len() != b_s.len() {
        Some((0usize, DiffField::Length, a_s.len() as i32, b_s.len() as i32, Seq::empty()))
    } else {
        let i = first_structural_diff(a_s, b_s, 0);
        if i < n {
            let byte_pos = if i == 0 || i + 1 == n {
                None
            } else {
                Some(entry_byte(a_s[i]))
            };
            Some((i as usize, DiffField::StructuralArray, a_s[i], b_s[i], context_spec(input, byte_pos)))
        } else if n < 2 {
            None
        } else {
            let j = first_pair_diff(input, a_s, a_p, b_p, 1);
            if j < n - 1 {
                Some(
                    (
                        j as usize,
                        DiffField::PairPos,
                        a_p[j],
                        b_p[j],
                        context_spec(input, Some(entry_byte(a_s[j]))),
                    ),
                )
            } else {
                None
            }
        }
    }
}

/// The view of an optional diff.
pub open spec fn diff_view(d: Option<TapeDiff>) -> Option<(usize, DiffField, i32, i32, Seq<char>)> {
    match d {
        Some(t) => Some((t.index, t.field, t.a, t.b, t.context@)),
        None => None,
    }
}

/// Compare a GPU-produced tape (`a`) against a CPU-reference tape (`b`) for
/// the same `input`, returning the first mismatch or `None` where they agree
/// everywhere the format defines an agreement: `structural` at every index,
/// `pair_pos` only at opener indices among the real entries (per `a`),
/// `depth` never.
pub fn diff_tapes(input: &[u8], a: &Tape, b: &Tape) -> (d: Option<TapeDiff>)
    requires
        a.pair_pos@.len() >= a.structural@.len(),
        b.pair_pos@.len() >= b.structural@.len(),
    ensures
        diff_view(d) == diff_spec(input@, a.structural@, a.pair_pos@, b.structural@, b.pair_pos@),
{
    if a.len() != b.len() {
        return Some(
            TapeDiff {
                index: 0,
                field: DiffField::Length,
                a: a.len() as i32,
                b: b.len() as i32,
                context: String::new(),
            },
        );
    }
    let n = a.len();
    let mut i: usize = 0;
    while i < n
        invariant
            n == a.structural@.len(),
            n == b.structural@.len(),
            0 <= i <= n,
            first_structural_diff(a.structural@, b.structural@, 0) == first_structural_diff(
                a.structural@,
                b.structural@,
                i as int,
            ),
        decreases n - i,
    {
        let x = a.structural.get(i);
        let y = b.structural.get(i);
        if x != y {
            let byte_pos = if i == 0 || i + 1 == n {
                None
            } else {
                let v = x as i64 - 1;
                Some(
                    if v < 0 {
                        0usize
                    } else {
                        v as usize
                    },
                )
            };
            return Some(
                TapeDiff {
                    index: i,
                    field: DiffField::StructuralArray,
                    a: x,
                    b: y,
                    context: context_near(input, byte_pos),
                },
            );
        }
        i += 1;
    }
    assert(first_structural_diff(a.structural@, b.structural@, 0) == n as int);
    if n < 2 {
        return None;
    }
    let mut j: usize = 1;
    while j < n - 1
        invariant
            n == a.structural@.len(),
            n <= a.pair_pos@.len(),
            n <= b.pair_pos@.len(),
            n == b.structural@.len(),
            first_structural_diff(a.structural@, b.structural@, 0) == n as int,
            n >= 2,
            1 <= j <= n - 1,
            first_pair_diff(input@, a.structural@, a.pair_pos@, b.pair_pos@, 1) == first_pair_diff(
                input@,
                a.structural@,
                a.pair_pos@,
                b.pair_pos@,
                j as int,
            ),
        decreases n - j,
    {
        let c = tape_char(input, a, j);
        if c == LBRACE || c == LBRACKET {
            let x = a.pair_pos.get(j);
            let y = b.pair_pos.get(j);
            if x != y {
                let v = a.structural.get(j) as i64 - 1;
                let p: usize = if v < 0 {
                    0
                } else {
                    v as usize
                };
                assert(first_pair_diff(input@, a.structural@, a.pair_pos@, b.pair_pos@, j as int)
                    == j as int);
                assert(p as int == entry_byte(a.structural@[j as int]));
                let context = context_near(input, Some(p));
                let d = TapeDiff { index: j, field: DiffField::PairPos, a: x, b: y, context };
                return Some(d);
            }
        }
        j += 1;
    }
    None
}


proof fn lemma_no_structural_diff(a: Seq<i32>, i: int)
    requires
        0 <= i <= a.len(),
    ensures
        first_structural_diff(a, a, i) == a.len(),
    decreases a.len() - i,
{
    if i < a.len() {
        lemma_no_structural_diff(a, i + 1);
    }
}

/// The pair scan from `i` finds nothing exactly when the two `pair_pos`
/// arrays agree at every opener from `i` on.
proof fn lemma_pair_diff_none(input: Seq<u8>, s: Seq<i32>, p1: Seq<i32>, p2: Seq<i32>, i: int)
    requires
        1 <= i <= s.len() - 1,
        p1.len() == s.len(),
        p2.len() == s.len(),
    ensures
        (first_pair_diff(input, s, p1, p2, i) == s.len() - 1) <==> (forall|j: int|
            i <= j < s.len() - 1 && is_open_bracket(#[trigger] tape_char_spec(input, s, j))
                ==> p1[j] == p2[j]),
        first_pair_diff(input, s, p1, p2, i) <= s.len() - 1,
    decreases s.len() - i,
{
    if i < s.len() - 1 {
        lemma_pair_diff_none(input, s, p1, p2, i + 1);
    }
}

/// Two tapes for the same input that agree on `structural` differ exactly
/// when their `pair_pos` arrays disagree at an opener among the real
/// entries: every other `pair_pos` slot is left out of the comparison.
pub proof fn lemma_diff_ignores_non_opener_slots(
    input: Seq<u8>,
    s: Seq<i32>,
    p1: Seq<i32>,
    p2: Seq<i32>,
)
    requires
        p1.len() == s.len(),
        p2.len() == s.len(),
    ensures
        diff_spec(input, s, p1, s, p2) is None <==> (forall|j: int|
            1 <= j < s.len() - 1 && is_open_bracket(#[trigger] tape_char_spec(input, s, j))
                ==> p1[j] == p2[j]),
{
    lemma_no_structural_diff(s, 0);
    if s.len() >= 2 {
        lemma_pair_diff_none(input, s, p1, p2, 1);
    }
}

/// A tape compared with itself has no difference.
pub proof fn lemma_diff_reflexive(input: Seq<u8>, s: Seq<i32>, p: Seq<i32>)
    requires
        p.len() == s.len(),
    ensures
        diff_spec(input, s, p, s, p) is None,
{
    lemma_diff_ignores_non_opener_slots(input, s, p, p);
}


proof fn lemma_structural_diff_symmetric(a: Seq<i32>, b: Seq<i32>, i: int)
    requires
        a.len() == b.len(),
        0 <= i,
    ensures
        first_structural_diff(a, b, i) == first_structural_diff(b, a, i),
        first_structural_diff(a, b, i) <= a.len(),
        first_structural_diff(a, b, i) < a.len() ==> a[first_structural_diff(a, b, i)]
            != b[first_structural_diff(a, b, i)],
    decreases a.len() - i,
{
    if i < a.len() {
        lemma_structural_diff_symmetric(a, b, i + 1);
    }
}

proof fn lemma_pair_diff_symmetric(
    input: Seq<u8>,
    s: Seq<i32>,
    p1: Seq<i32>,
    p2: Seq<i32>,
    i: int,
)
    ensures
        first_pair_diff(input, s, p1, p2, i) == first_pair_diff(input, s, p2, p1, i),
    decreases s.len() - i,
{
    if 1 <= i < s.len() - 1 {
        lemma_pair_diff_symmetric(input, s, p1, p2, i + 1);
    }
}

/// The order of the two tapes does not matter for the comparison, only for
/// which value is reported as `a` and which as `b`: the same index and
/// field are found either way, with the two values swapped.
pub proof fn lemma_diff_symmetric(
    input: Seq<u8>,
    a_s: Seq<i32>,
    a_p: Seq<i32>,
    b_s: Seq<i32>,
    b_p: Seq<i32>,
)
    ensures
        diff_spec(input, a_s, a_p, b_s, b_p) is None <==> diff_spec(input, b_s, b_p, a_s, a_p) is None,
        diff_spec(input, a_s, a_p, b_s, b_p) matches Some((i, f, x, y, _)) ==> diff_spec(
            input,
            b_s,
            b_p,
            a_s,
            a_p,
        ) matches Some((i2, f2, x2, y2, _)) && i2 == i && f2 == f && x2 == y && y2 == x,
{
    if a_s.len() == b_s.len() {
        lemma_structural_diff_symmetric(a_s, b_s, 0);
        let i = first_structural_diff(a_s, b_s, 0);
        if i >= a_s.len() {
            lemma_no_structural_diff_eq(a_s, b_s, 0);
            assert(a_s =~= b_s);
            lemma_pair_diff_symmetric(input, a_s, a_p, b_p, 1);
        }
    }
}

/// When the scan finds no `structural` mismatch, the arrays agree.
proof fn lemma_no_structural_diff_eq(a: Seq<i32>, b: Seq<i32>, i: int)
    requires
        a.len() == b.len(),
        0 <= i <= a.len(),
        first_structural_diff(a, b, i) == a.len(),
    ensures
        forall|k: int| i <= k < a.len() ==> a[k] == b[k],
    decreases a.len() - i,
{
    if i < a.len() {
        lemma_no_structural_diff_eq(a, b, i + 1);
    }
    if i == 0 {
        assert(a =~= b);
    }
}


/// What `str`'s `Debug` formatting makes of the text `s`: quoted, with
/// quotes, backslashes and control characters escaped.
pub uninterp spec fn debug_text(s: Seq<char>) -> Seq<char>;

/// `format!("{:?}", s)` for a `str`: `s` quoted and escaped as `Debug`
/// prints it.
#[verifier::external_body]
fn debug_quoted(s: &str) -> (r: String)
    ensures
        r@ == debug_text(s@),
{
    format!("{:?}", s)
}

/// The name a field is printed under.
pub open spec fn field_name(f: DiffField) -> Seq<u8> {
    match f {
        DiffField::StructuralArray => "Structural".spec_bytes(),
        DiffField::PairPos => "PairPos".spec_bytes(),
        DiffField::Length => "Length".spec_bytes(),
    }
}

impl TapeDiff {
    /// The UTF-8 text of the diff's one-line description.
    pub open spec fn message_bytes(&self) -> Seq<u8> {
        let head = "tape mismatch at index ".spec_bytes() + decimal(self.index as nat)
            + " (".spec_bytes() + field_name(self.field) + "): a=".spec_bytes() + signed_decimal(
            self.a as int,
        ) + " b=".spec_bytes() + signed_decimal(self.b as int);
        if self.context@.len() == 0 {
            head
        } else {
            head + " \u{2014} near input: ".spec_bytes() + vstd::utf8::encode_utf8(
                debug_text(self.context@),
            )
        }
    }

    /// A one-line description: the index, field and both values, then the
    /// input near the mismatch, quoted, when there is any.
    pub fn message(&self) -> (s: String)
        ensures
            vstd::utf8::encode_utf8(s@) == self.message_bytes(),
    {
        broadcast use vstd::utf8::encode_utf8_valid_utf8, vstd::utf8::valid_utf8_concat;

        let mut out: Vec<u8> = Vec::new();
        push_str(&mut out, "tape mismatch at index ");
        push_decimal(&mut out, self.index as u64);
        push_str(&mut out, " (");
        match self.field {
            DiffField::StructuralArray => push_str(&mut out, "Structural"),
            DiffField::PairPos => push_str(&mut out, "PairPos"),
            DiffField::Length => push_str(&mut out, "Length"),
        }
        push_str(&mut out, "): a=");
        push_signed_decimal(&mut out, self.a as i64);
        push_str(&mut out, " b=");
        push_signed_decimal(&mut out, self.b as i64);
        let ghost head = out@;
        proof {
            lemma_decimal_valid(self.index as nat);
            lemma_signed_decimal_valid(self.a as int);
            lemma_signed_decimal_valid(self.b as int);
            let p1 = "tape mismatch at index ".spec_bytes();
            let d = decimal(self.index as nat);
            let p2 = " (".spec_bytes();
            let f = field_name(self.field);
            let p3 = "): a=".spec_bytes();
            let x = signed_decimal(self.a as int);
            let p4 = " b=".spec_bytes();
            let y = signed_decimal(self.b as int);
            assert(valid_utf8(p1 + d));
            assert(valid_utf8(p1 + d + p2));
            assert(valid_utf8(p1 + d + p2 + f));
            assert(valid_utf8(p1 + d + p2 + f + p3));
            assert(valid_utf8(p1 + d + p2 + f + p3 + x));
            assert(valid_utf8(p1 + d + p2 + f + p3 + x + p4));
            assert(valid_utf8(p1 + d + p2 + f + p3 + x + p4 + y));
            assert(out@ =~= p1 + d + p2 + f + p3 + x + p4 + y);
        }
        let ctx = self.context.as_str();
        if !ctx.is_empty() {
            push_str(&mut out, " \u{2014} near input: ");
            let q = debug_quoted(ctx);
            push_str(&mut out, q.as_str());
            proof {
                let p5 = " \u{2014} near input: ".spec_bytes();
                let m = vstd::utf8::encode_utf8(q@);
                assert(valid_utf8(head + p5));
                assert(valid_utf8(head + p5 + m));
                assert(out@ =~= head + p5 + m);
            }
        }
        string_from_utf8(out.as_slice())
    }
}

/// Where the pair scan from `i` stops short of the end, it has found an
/// opener at or after `i` whose `pair_pos` slots differ.
proof fn lemma_pair_diff_found(input: Seq<u8>, s: Seq<i32>, p1: Seq<i32>, p2: Seq<i32>, i: int)
    requires
        1 <= i,
    ensures
        first_pair_diff(input, s, p1, p2, i) < s.len() - 1 ==> {
            let j = first_pair_diff(input, s, p1, p2, i);
            &&& i <= j
            &&& is_open_bracket(tape_char_spec(input, s, j))
            &&& p1[j] != p2[j]
        },
    decreases s.len() - i,
{
    if i < s.len() - 1 {
        lemma_pair_diff_found(input, s, p1, p2, i + 1);
    }
}

/// A reported mismatch names the first place the tapes differ and carries
/// each tape's own value there, `a` from the first tape and `b` from the
/// second: their lengths for a length difference, their `structural`
/// entries (which differ, after equal ones) for a `structural` difference,
/// their `pair_pos` slots (which differ, at an opener, with equal
/// `structural` arrays) for a `pair_pos` difference.
pub proof fn lemma_diff_reports_each_tapes_value(
    input: Seq<u8>,
    a_s: Seq<i32>,
    a_p: Seq<i32>,
    b_s: Seq<i32>,
    b_p: Seq<i32>,
)
    requires
        a_s.len() <= usize::MAX,
    ensures
        diff_spec(input, a_s, a_p, b_s, b_p) matches Some((i, f, x, y, _)) ==> match f {
            DiffField::Length => {
                &&& a_s.len() != b_s.len()
                &&& x == a_s.len() as i32
                &&& y == b_s.len() as i32
            },
            DiffField::StructuralArray => {
                &&& a_s.len() == b_s.len()
                &&& i < a_s.len()
                &&& x == a_s[i as int]
                &&& y == b_s[i as int]
                &&& x != y
                &&& forall|k: int| 0 <= k < i ==> a_s[k] == b_s[k]
            },
            DiffField::PairPos => {
                &&& a_s == b_s
                &&& 0 < i < a_s.len() - 1
                &&& is_open_bracket(tape_char_spec(input, a_s, i as int))
                &&& x == a_p[i as int]
                &&& y == b_p[i as int]
                &&& x != y
            },
        },
{
    if a_s.len() == b_s.len() {
        let n = a_s.len() as int;
        lemma_structural_diff_symmetric(a_s, b_s, 0);
        let i = first_structural_diff(a_s, b_s, 0);
        lemma_structural_diff_prefix(a_s, b_s, 0);
        if i < n {
            assert(diff_spec(input, a_s, a_p, b_s, b_p)->Some_0.1 == DiffField::StructuralArray);
        }
        if i >= n && n >= 2 {
            lemma_no_structural_diff_eq(a_s, b_s, 0);
            assert(a_s =~= b_s);
            lemma_pair_diff_found(input, a_s, a_p, b_p, 1);
        }
    }
}

/// Before the first `structural` mismatch from `i`, the arrays agree.
proof fn lemma_structural_diff_prefix(a: Seq<i32>, b: Seq<i32>, i: int)
    requires
        0 <= i <= a.len(),
    ensures
        i <= first_structural_diff(a, b, i) <= a.len(),
        forall|k: int| i <= k < first_structural_diff(a, b, i) ==> a[k] == b[k],
    decreases a.len() - i,
{
    if i < a.len() {
        lemma_structural_diff_prefix(a, b, i + 1);
    }
}

} // verus!
