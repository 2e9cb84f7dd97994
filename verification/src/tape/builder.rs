//! CPU reference tape builder: a straightforward sequential scan producing
//! the tape layout of the GPU parser.

use vstd::prelude::*;
use vstd::utf8::valid_utf8;

use super::document::{Document, is_opener_byte, closer_byte};
use super::error::Error;
use super::storage::{Tape, TapeStorage};
use super::text::{
    is_valid_utf8, BACKSLASH, COLON, COMMA, LBRACE, LBRACKET, NEWLINE, QUOTE, RBRACE, RBRACKET,
};

verus! {

/// Input shape: a single JSON document, or a newline-delimited stream of
/// JSON documents (JSON Lines).
#[derive(Debug, Clone, Copy, PartialEq, Eq, Structural)]
pub enum Mode {
    Standard,
    Lines,
}

pub open spec fn is_open_bracket(b: u8) -> bool {
    b == LBRACE || b == LBRACKET
}

pub open spec fn is_close_bracket(b: u8) -> bool {
    b == RBRACE || b == RBRACKET
}

/// The opening bracket that a closing bracket `b` matches.
pub open spec fn opener_of(b: u8) -> u8 {
    if b == RBRACE { LBRACE } else { LBRACKET }
}

/// Lexer state and bracket bookkeeping after a prefix of the input:
/// whether the scan is inside a string (and just after a backslash there),
/// the 1-based offsets of the structural bytes seen so far, the open
/// brackets (byte and index into `offsets`), the (opener, closer) index
/// pairs closed so far, and the deepest nesting reached.
pub struct ScanState {
    pub in_string: bool,
    pub escape: bool,
    pub offsets: Seq<i32>,
    pub stack: Seq<(u8, usize)>,
    pub pairs: Seq<(usize, usize)>,
    pub max_depth: int,
}

pub open spec fn scan_start() -> ScanState {
    ScanState {
        in_string: false,
        escape: false,
        offsets: Seq::empty(),
        stack: Seq::empty(),
        pairs: Seq::empty(),
        max_depth: 0,
    }
}

/// Whether byte `b`, met outside any string, is structural: one of
/// `{ } [ ] : ,`, or a newline when newlines separate documents.
pub open spec fn is_structural_byte(b: u8, mark_newline: bool) -> bool {
    is_open_bracket(b) || is_close_bracket(b) || b == COLON || b == COMMA || (mark_newline
        && b == NEWLINE)
}

/// One step of the scan: byte `b` at 0-based position `i`.
pub open spec fn scan_step(st: ScanState, b: u8, i: int, mark_newline: bool) -> Result<
    ScanState,
    Error,
> {
    if st.in_string {
        if st.escape {
            Ok(ScanState { escape: false, ..st })
        } else if b == BACKSLASH {
            Ok(ScanState { escape: true, ..st })
        } else if b == QUOTE {
            Ok(ScanState { in_string: false, ..st })
        } else {
            Ok(st)
        }
    } else if b == QUOTE {
        Ok(ScanState { in_string: true, ..st })
    } else if is_open_bracket(b) {
        let offsets = st.offsets.push((i + 1) as i32);
        let stack = st.stack.push((b, st.offsets.len() as usize));
        Ok(
            ScanState {
                offsets,
                stack,
                max_depth: if stack.len() > st.max_depth {
                    stack.len() as int
                } else {
                    st.max_depth
                },
                ..st
            },
        )
    } else if is_close_bracket(b) {
        if st.stack.len() == 0 {
            Err(Error::UnbalancedBrackets)
        } else if st.stack.last().0 != opener_of(b) {
            Err(Error::UnbalancedBrackets)
        } else {
            Ok(
                ScanState {
                    offsets: st.offsets.push((i + 1) as i32),
                    stack: st.stack.drop_last(),
                    pairs: st.pairs.push((st.stack.last().1, st.offsets.len() as usize)),
                    ..st
                },
            )
        }
    } else if is_structural_byte(b, mark_newline) {
        Ok(ScanState { offsets: st.offsets.push((i + 1) as i32), ..st })
    } else {
        Ok(st)
    }
}

/// The scan over the first `i` bytes; the first error met is kept.
pub open spec fn scan_prefix(bytes: Seq<u8>, i: nat, mark_newline: bool) -> Result<
    ScanState,
    Error,
>
    decreases i,
{
    if i == 0 {
        Ok(scan_start())
    } else {
        match scan_prefix(bytes, (i - 1) as nat, mark_newline) {
            Err(e) => Err(e),
            Ok(st) => scan_step(st, bytes[i - 1], i - 1, mark_newline),
        }
    }
}

/// The whole scan: an unfinished string or an unclosed bracket at the end
/// is an error.
pub open spec fn scan_spec(bytes: Seq<u8>, mark_newline: bool) -> Result<ScanState, Error> {
    match scan_prefix(bytes, bytes.len(), mark_newline) {
        Err(e) => Err(e),
        Ok(st) => if st.in_string {
            Err(Error::UnterminatedString)
        } else if st.stack.len() != 0 {
            Err(Error::UnbalancedBrackets)
        } else {
            Ok(st)
        },
    }
}

/// Once the scan has failed, it keeps the same error.
proof fn lemma_scan_err_sticky(bytes: Seq<u8>, i: nat, j: nat, mark_newline: bool)
    requires
        i <= j,
        scan_prefix(bytes, i, mark_newline) is Err,
    ensures
        scan_prefix(bytes, j, mark_newline) == scan_prefix(bytes, i, mark_newline),
    decreases j - i,
{
    if i < j {
        lemma_scan_err_sticky(bytes, i, (j - 1) as nat, mark_newline);
    }
}

/// Structural offsets, opener/closer index pairs, and max depth: the
/// intermediate shared by `Mode::Standard` and `Mode::Lines`.
struct RawStructure {
    offsets: Vec<i32>,
    pairs: Vec<(usize, usize)>,
    depth: i32,
}

/// Bookkeeping facts the scan keeps: indices into `offsets` are in range.
pub open spec fn scan_bounded(st: ScanState) -> bool {
    &&& forall|k: int| 0 <= k < st.stack.len() ==> (#[trigger] st.stack[k]).1 < st.offsets.len()
    &&& forall|k: int|
        0 <= k < st.pairs.len() ==> (#[trigger] st.pairs[k]).0 < st.pairs[k].1 < st.offsets.len()
    &&& st.stack.len() <= st.max_depth <= st.offsets.len()
}

proof fn lemma_scan_step_bounded(st: ScanState, b: u8, i: int, mark_newline: bool)
    requires
        scan_bounded(st),
        scan_step(st, b, i, mark_newline) is Ok,
        st.offsets.len() <= i < i32::MAX,
    ensures
        scan_bounded(scan_step(st, b, i, mark_newline)->Ok_0),
        scan_step(st, b, i, mark_newline)->Ok_0.offsets.len() <= st.offsets.len() + 1,
        scan_step(st, b, i, mark_newline)->Ok_0.max_depth <= st.max_depth + 1,
{
    let nst = scan_step(st, b, i, mark_newline)->Ok_0;
    assert forall|k: int| 0 <= k < nst.stack.len() implies (#[trigger] nst.stack[k]).1
        < nst.offsets.len() by {
        if k < st.stack.len() {
            assert(nst.stack[k] == st.stack[k]);
        }
    }
    assert forall|k: int| 0 <= k < nst.pairs.len() implies (#[trigger] nst.pairs[k]).0
        < nst.pairs[k].1 < nst.offsets.len() by {
        if k < st.pairs.len() {
            assert(nst.pairs[k] == st.pairs[k]);
        } else {
            assert(!st.in_string && b != QUOTE && !is_open_bracket(b) && is_close_bracket(b));
            let top = st.stack.len() - 1;
            assert(st.stack[top].1 < st.offsets.len());
            assert(nst.pairs[k] == (st.stack[top].1, st.offsets.len() as usize));
        }
    }
}

/// Scan `bytes` for structural characters (outside strings), returning their
/// 1-based offsets, the (opener, closer) index pairs into that offsets list,
/// and the max bracket-nesting depth.
///
/// `mark_newline` folds an unescaped `\n` outside a string into the same
/// structural set as `{}[]:,`.
fn scan_structural(bytes: &[u8], mark_newline: bool) -> (res: Result<RawStructure, Error>)
    requires
        bytes.len() < i32::MAX,
    ensures
        match res {
            Ok(raw) => scan_spec(bytes@, mark_newline) matches Ok(st) && raw.offsets@ == st.offsets
                && raw.pairs@ == st.pairs && raw.depth == st.max_depth && scan_bounded(st)
                && raw.offsets@.len() <= bytes@.len(),
            Err(e) => scan_spec(bytes@, mark_newline) == Err::<ScanState, Error>(e),
        },
{
    let mut offsets: Vec<i32> = Vec::new();
    let mut pairs: Vec<(usize, usize)> = Vec::new();
    let mut stack: Vec<(u8, usize)> = Vec::new();
    let mut depth: i32 = 0;
    let mut max_depth: i32 = 0;
    let mut in_string = false;
    let mut escape = false;
    let n = bytes.len();
    let mut i: usize = 0;
    while i < n
        invariant
            n == bytes@.len(),
            n < i32::MAX,
            0 <= i <= n,
            scan_prefix(bytes@, i as nat, mark_newline) == Ok::<ScanState, Error>(
                ScanState {
                    in_string,
                    escape,
                    offsets: offsets@,
                    stack: stack@,
                    pairs: pairs@,
                    max_depth: max_depth as int,
                },
            ),
            scan_bounded(
                ScanState {
                    in_string,
                    escape,
                    offsets: offsets@,
                    stack: stack@,
                    pairs: pairs@,
                    max_depth: max_depth as int,
                },
            ),
            depth as int == stack@.len(),
            offsets@.len() <= i,
        decreases n - i,
    {
        let b = bytes[i];
        let ghost st = ScanState {
            in_string,
            escape,
            offsets: offsets@,
            stack: stack@,
            pairs: pairs@,
            max_depth: max_depth as int,
        };
        proof {
            if scan_step(st, b, i as int, mark_newline) is Ok {
                lemma_scan_step_bounded(st, b, i as int, mark_newline);
            } else {
                lemma_scan_err_sticky(bytes@, (i + 1) as nat, n as nat, mark_newline);
            }
        }
        if in_string {
            if escape {
                escape = false;
            } else if b == BACKSLASH {
                escape = true;
            } else if b == QUOTE {
                in_string = false;
            }
        } else if b == QUOTE {
            in_string = true;
        } else if b == LBRACE || b == LBRACKET {
            offsets.push((i + 1) as i32);
            stack.push((b, offsets.len() - 1));
            depth += 1;
            if depth > max_depth {
                max_depth = depth;
            }
        } else if b == RBRACE || b == RBRACKET {
            offsets.push((i + 1) as i32);
            let expected = if b == RBRACE {
                LBRACE
            } else {
                LBRACKET
            };
            match stack.pop() {
                None => {
                    return Err(Error::UnbalancedBrackets);
                },
                Some((open_b, open_idx)) => {
                    if open_b != expected {
                        return Err(Error::UnbalancedBrackets);
                    }
                    pairs.push((open_idx, offsets.len() - 1));
                },
            }
            depth -= 1;
        } else if b == COLON || b == COMMA || (mark_newline && b == NEWLINE) {
            offsets.push((i + 1) as i32);
        }
        i += 1;
    }
    if in_string {
        return Err(Error::UnterminatedString);
    }
    if stack.len() != 0 {
        return Err(Error::UnbalancedBrackets);
    }
    Ok(RawStructure { offsets, pairs, depth: max_depth })
}

/// JSON Lines: the same scan as Standard mode, except that an unescaped `\n`
/// outside a string is also structural. Bracket pairing is unaffected.
fn build_lines(input: &[u8]) -> (res: Result<RawStructure, Error>)
    requires
        input.len() < i32::MAX,
    ensures
        match res {
            Ok(raw) => scan_spec(input@, true) matches Ok(st) && raw.offsets@ == st.offsets
                && raw.pairs@ == st.pairs && raw.depth == st.max_depth && scan_bounded(st)
                && raw.offsets@.len() <= input@.len(),
            Err(e) => scan_spec(input@, true) == Err::<ScanState, Error>(e),
        },
{
    scan_structural(input, true)
}

/// `pp` with `pp[a + 1] = b + 1` written for each pair `(a, b)`, in order.
pub open spec fn apply_pairs(pp: Seq<i32>, pairs: Seq<(usize, usize)>) -> Seq<i32>
    decreases pairs.len(),
{
    if pairs.len() == 0 {
        pp
    } else {
        apply_pairs(pp, pairs.drop_last()).update(
            pairs.last().0 + 1,
            (pairs.last().1 + 1) as i32,
        )
    }
}

/// The `structural` array for `offsets`: an artificial `0` entry, the
/// offsets, and an artificial last entry holding its own index.
pub open spec fn tape_structural(offsets: Seq<i32>) -> Seq<i32> {
    seq![0i32] + offsets + seq![(offsets.len() + 1) as i32]
}

/// The `pair_pos` array for `n` real entries and the bracket `pairs`: the
/// artificial open pairs with the artificial close and back, each opener
/// holds its closer's tape index, and every other slot holds `-1`.
pub open spec fn tape_pair_pos(n: nat, pairs: Seq<(usize, usize)>) -> Seq<i32> {
    apply_pairs(
        Seq::new(
            n + 2,
            |k: int|
                if k == 0 {
                    (n + 1) as i32
                } else if k == n + 1 {
                    0i32
                } else {
                    -1i32
                },
        ),
        pairs,
    )
}

/// What `build_tape_cpu` produces for `input`: the `structural` array, the
/// `pair_pos` array and the max depth, or the error met.
pub open spec fn build_spec(input: Seq<u8>, mode: Mode) -> Result<(Seq<i32>, Seq<i32>, int), Error> {
    if input.len() == 0 {
        Err(Error::EmptyInput)
    } else if !valid_utf8(input) {
        Err(Error::InvalidUtf8)
    } else {
        match scan_spec(input, mode == Mode::Lines) {
            Err(e) => Err(e),
            Ok(st) => Ok(
                (
                    tape_structural(st.offsets),
                    tape_pair_pos(st.offsets.len(), st.pairs),
                    st.max_depth,
                ),
            ),
        }
    }
}

/// Build a tape from `input`: the structural entries of the whole input
/// (newlines included in `Mode::Lines`), wrapped in the two artificial
/// entries, with `pair_pos` filled at the openers.
pub fn build_tape_cpu(input: &[u8], mode: Mode) -> (res: Result<Tape, Error>)
    requires
        input.len() < i32::MAX,
    ensures
        match res {
            Ok(t) => build_spec(input@, mode) == Ok::<(Seq<i32>, Seq<i32>, int), Error>(
                (t.structural@, t.pair_pos@, t.depth as int),
            ),
            Err(e) => build_spec(input@, mode) == Err::<(Seq<i32>, Seq<i32>, int), Error>(e),
        },
{
    if input.len() == 0 {
        return Err(Error::EmptyInput);
    }
    if !is_valid_utf8(input) {
        return Err(Error::InvalidUtf8);
    }
    let raw = match mode {
        Mode::Standard => scan_structural(input, false)?,
        Mode::Lines => build_lines(input)?,
    };
    let RawStructure { offsets, pairs, depth } = raw;
    let ghost st = scan_spec(input@, mode == Mode::Lines)->Ok_0;
    let n = offsets.len();
    let mut structural: Vec<i32> = Vec::with_capacity(n + 2);
    structural.push(0);
    let mut k: usize = 0;
    while k < n
        invariant
            n == offsets@.len(),
            n < i32::MAX,
            0 <= k <= n,
            structural@ == seq![0i32] + offsets@.take(k as int),
        decreases n - k,
    {
        structural.push(offsets[k]);
        k += 1;
        assert(offsets@.take(k as int) == offsets@.take(k - 1).push(offsets@[k - 1]));
    }
    assert(offsets@.take(n as int) == offsets@);
    structural.push((n + 1) as i32);
    let ghost base = Seq::new(
        (n + 2) as nat,
        |j: int|
            if j == 0 {
                (n + 1) as i32
            } else if j == n + 1 {
                0i32
            } else {
                -1i32
            },
    );
    let mut pair_pos: Vec<i32> = Vec::with_capacity(n + 2);
    let mut j: usize = 0;
    while j < n + 2
        invariant
            n < i32::MAX,
            0 <= j <= n + 2,
            base == Seq::new(
                (n + 2) as nat,
                |i: int|
                    if i == 0 {
                        (n + 1) as i32
                    } else if i == n + 1 {
                        0i32
                    } else {
                        -1i32
                    },
            ),
            pair_pos@ == base.take(j as int),
        decreases n + 2 - j,
    {
        let v: i32 = if j == 0 {
            (n + 1) as i32
        } else if j == n + 1 {
            0
        } else {
            -1
        };
        assert(v == base[j as int]);
        assert(base.take(j + 1) =~= base.take(j as int).push(base[j as int]));
        pair_pos.push(v);
        j += 1;
    }
    assert(base.take((n + 2) as int) == base);
    let m = pairs.len();
    let mut q: usize = 0;
    while q < m
        invariant
            m == pairs@.len(),
            n == offsets@.len(),
            n < i32::MAX,
            0 <= q <= m,
            forall|r: int| 0 <= r < m ==> (#[trigger] pairs@[r]).0 < pairs@[r].1 < n,
            pair_pos@ == apply_pairs(base, pairs@.take(q as int)),
            base == Seq::new(
                (n + 2) as nat,
                |i: int|
                    if i == 0 {
                        (n + 1) as i32
                    } else if i == n + 1 {
                        0i32
                    } else {
                        -1i32
                    },
            ),

            pair_pos@.len() == n + 2,
        decreases m - q,
    {
        let (a, b) = pairs[q];
        assert(pairs@[q as int].0 < pairs@[q as int].1 < n);
        pair_pos.set(a + 1, (b + 1) as i32);
        q += 1;
        assert(pairs@.take(q as int).drop_last() == pairs@.take(q - 1));
    }
    assert(pairs@.take(m as int) == pairs@);
    assert(structural@ =~= tape_structural(offsets@));
    assert(pair_pos@ == tape_pair_pos(n as nat, pairs@));
    Ok(
        Tape {
            structural: TapeStorage::Owned(structural),
            pair_pos: TapeStorage::Owned(pair_pos),
            depth,
        },
    )
}

/// The input byte at the 1-based offset `st.offsets[q]`.
pub open spec fn off_byte(b: Seq<u8>, st: ScanState, q: int) -> u8 {
    b[st.offsets[q] - 1]
}

/// What the scan keeps true after the first `i` bytes: offsets are
/// in-range and increasing; the stack holds open brackets in offset order;
/// each pair joins an opener to its matching closer, no opener twice; every
/// opener is on the stack or in a pair; and the openers inside a pair are
/// closed before it.
pub open spec fn scan_inv(b: Seq<u8>, i: int, st: ScanState) -> bool {
    &&& forall|q: int| 0 <= q < st.offsets.len() ==> 1 <= #[trigger] st.offsets[q] <= i
    &&& forall|q1: int, q2: int|
        0 <= q1 < q2 < st.offsets.len() ==> #[trigger] st.offsets[q1] < #[trigger] st.offsets[q2]
    &&& forall|t: int|
        0 <= t < st.stack.len() ==> (#[trigger] st.stack[t]).1 < st.offsets.len()
            && is_open_bracket(st.stack[t].0) && off_byte(b, st, st.stack[t].1 as int)
            == st.stack[t].0
    &&& forall|t1: int, t2: int|
        0 <= t1 < t2 < st.stack.len() ==> (#[trigger] st.stack[t1]).1 < (#[trigger] st.stack[t2]).1
    &&& forall|t: int|
        0 <= t < st.pairs.len() ==> (#[trigger] st.pairs[t]).0 < st.pairs[t].1 < st.offsets.len()
            && is_open_bracket(off_byte(b, st, st.pairs[t].0 as int)) && off_byte(
            b,
            st,
            st.pairs[t].1 as int,
        ) == closer_of(off_byte(b, st, st.pairs[t].0 as int))
    &&& forall|t1: int, t2: int|
        0 <= t1 < st.pairs.len() && 0 <= t2 < st.pairs.len() && t1 != t2 ==> (#[trigger] st.pairs[t1]).0
            != (#[trigger] st.pairs[t2]).0
    &&& forall|t: int, u: int|
        0 <= t < st.stack.len() && 0 <= u < st.pairs.len() ==> (#[trigger] st.stack[t]).1
            != (#[trigger] st.pairs[u]).0
    &&& forall|q: int|
        0 <= q < st.offsets.len() && is_open_bracket(#[trigger] off_byte(b, st, q)) ==> (exists|
            t: int,
        |
            0 <= t < st.stack.len() && (#[trigger] st.stack[t]).1 == q) || (exists|t: int|
            0 <= t < st.pairs.len() && (#[trigger] st.pairs[t]).0 == q)
    &&& forall|t: int, q: int|
        0 <= t < st.pairs.len() && (#[trigger] st.pairs[t]).0 < q < st.pairs[t].1
            && is_open_bracket(#[trigger] off_byte(b, st, q)) ==> exists|t2: int|
            0 <= t2 < st.pairs.len() && (#[trigger] st.pairs[t2]).0 == q && st.pairs[t2].1
                < st.pairs[t].1
}

/// The closing bracket matching an opening one.
pub open spec fn closer_of(b: u8) -> u8 {
    if b == LBRACE {
        RBRACE
    } else {
        RBRACKET
    }
}

/// Each scan step keeps `scan_inv`.
#[verifier::spinoff_prover]
#[verifier::rlimit(40)]
proof fn lemma_scan_step_inv(b: Seq<u8>, i: int, st: ScanState, mark_newline: bool)
    requires
        0 <= i < b.len(),
        b.len() < i32::MAX,
        scan_inv(b, i, st),
        st.offsets.len() <= i,
        scan_step(st, b[i], i, mark_newline) is Ok,
    ensures
        scan_inv(b, i + 1, scan_step(st, b[i], i, mark_newline)->Ok_0),
        scan_step(st, b[i], i, mark_newline)->Ok_0.offsets.len() <= i + 1,
{
    let c = b[i];
    let nst = scan_step(st, c, i, mark_newline)->Ok_0;
    let o = st.offsets.len() as int;
    if st.in_string || c == QUOTE || !is_structural_byte(c, mark_newline) {
        assert(nst.offsets == st.offsets && nst.stack == st.stack && nst.pairs == st.pairs);
        assert forall|q: int| 0 <= q < o && is_open_bracket(#[trigger] off_byte(b, nst, q)) implies (
        exists|t: int| 0 <= t < nst.stack.len() && (#[trigger] nst.stack[t]).1 == q) || (exists|
            t: int,
        | 0 <= t < nst.pairs.len() && (#[trigger] nst.pairs[t]).0 == q) by {
            assert(off_byte(b, nst, q) == off_byte(b, st, q));
        }
        assert forall|t: int, q: int|
            0 <= t < nst.pairs.len() && (#[trigger] nst.pairs[t]).0 < q < nst.pairs[t].1
                && is_open_bracket(#[trigger] off_byte(b, nst, q)) implies exists|t2: int|
            0 <= t2 < nst.pairs.len() && (#[trigger] nst.pairs[t2]).0 == q && nst.pairs[t2].1
                < nst.pairs[t].1 by {
            assert(off_byte(b, nst, q) == off_byte(b, st, q));
        }
        return;
    }
    // The new offset extends the old ones; old offsets read the same bytes.
    assert(nst.offsets == st.offsets.push((i + 1) as i32));
    assert forall|q: int| 0 <= q < o implies off_byte(b, nst, q) == off_byte(b, st, q) by {
        assert(nst.offsets[q] == st.offsets[q]);
    }
    assert(off_byte(b, nst, o) == c);
    if is_open_bracket(c) {
        assert(nst.stack == st.stack.push((c, o as usize)));
        assert(nst.pairs == st.pairs);
        assert forall|q: int|
            0 <= q < nst.offsets.len() && is_open_bracket(
                #[trigger] off_byte(b, nst, q),
            ) implies (exists|t: int|
            0 <= t < nst.stack.len() && (#[trigger] nst.stack[t]).1 == q) || (exists|t: int|
            0 <= t < nst.pairs.len() && (#[trigger] nst.pairs[t]).0 == q) by {
            if q == o {
                assert(nst.stack[st.stack.len() as int].1 == q);
            } else {
                assert(off_byte(b, nst, q) == off_byte(b, st, q));
                if exists|t: int| 0 <= t < st.stack.len() && (#[trigger] st.stack[t]).1 == q {
                    let t = choose|t: int| 0 <= t < st.stack.len() && (#[trigger] st.stack[t]).1 == q;
                    assert(nst.stack[t] == st.stack[t]);
                }
            }
        }
        assert forall|t: int, q: int|
            0 <= t < nst.pairs.len() && (#[trigger] nst.pairs[t]).0 < q < nst.pairs[t].1
                && is_open_bracket(#[trigger] off_byte(b, nst, q)) implies exists|t2: int|
            0 <= t2 < nst.pairs.len() && (#[trigger] nst.pairs[t2]).0 == q && nst.pairs[t2].1
                < nst.pairs[t].1 by {
            assert(off_byte(b, nst, q) == off_byte(b, st, q));
        }
        assert forall|t: int|
            0 <= t < nst.stack.len() implies (#[trigger] nst.stack[t]).1 < nst.offsets.len()
                && is_open_bracket(nst.stack[t].0) && off_byte(b, nst, nst.stack[t].1 as int)
                == nst.stack[t].0 by {
            if t < st.stack.len() {
                assert(nst.stack[t] == st.stack[t]);
            }
        }
        assert forall|t1: int, t2: int|
            0 <= t1 < t2 < nst.stack.len() implies (#[trigger] nst.stack[t1]).1
                < (#[trigger] nst.stack[t2]).1 by {
            assert(nst.stack[t1] == st.stack[t1]);
            if t2 < st.stack.len() {
                assert(nst.stack[t2] == st.stack[t2]);
            }
        }
        assert forall|t: int, u: int|
            0 <= t < nst.stack.len() && 0 <= u < nst.pairs.len() implies (#[trigger] nst.stack[t]).1
                != (#[trigger] nst.pairs[u]).0 by {
            if t < st.stack.len() {
                assert(nst.stack[t] == st.stack[t]);
            }
        }
        assert forall|t: int|
            0 <= t < nst.pairs.len() implies (#[trigger] nst.pairs[t]).0 < nst.pairs[t].1
                < nst.offsets.len() && is_open_bracket(off_byte(b, nst, nst.pairs[t].0 as int))
                && off_byte(b, nst, nst.pairs[t].1 as int) == closer_of(
                off_byte(b, nst, nst.pairs[t].0 as int),
            ) by {
            assert(nst.pairs[t] == st.pairs[t]);
        }
        assert forall|q1: int, q2: int|
            0 <= q1 < q2 < nst.offsets.len() implies #[trigger] nst.offsets[q1]
                < #[trigger] nst.offsets[q2] by {
            if q2 < o {
                assert(nst.offsets[q2] == st.offsets[q2]);
            }
            assert(nst.offsets[q1] == st.offsets[q1]);
        }
    } else if is_close_bracket(c) {
        let top = st.stack.len() - 1;
        let a = st.stack[top].1;
        assert(st.stack[top].0 == opener_of(c));
        assert(nst.stack == st.stack.drop_last());
        assert(nst.pairs == st.pairs.push((a, o as usize)));
        assert(closer_of(opener_of(c)) == c);
        assert forall|q: int|
            0 <= q < nst.offsets.len() && is_open_bracket(
                #[trigger] off_byte(b, nst, q),
            ) implies (exists|t: int|
            0 <= t < nst.stack.len() && (#[trigger] nst.stack[t]).1 == q) || (exists|t: int|
            0 <= t < nst.pairs.len() && (#[trigger] nst.pairs[t]).0 == q) by {
            assert(q != o);
            assert(off_byte(b, nst, q) == off_byte(b, st, q));
            if exists|t: int| 0 <= t < st.stack.len() && (#[trigger] st.stack[t]).1 == q {
                let t = choose|t: int| 0 <= t < st.stack.len() && (#[trigger] st.stack[t]).1 == q;
                if t == top {
                    assert(nst.pairs[st.pairs.len() as int].0 == q);
                } else {
                    assert(nst.stack[t] == st.stack[t]);
                }
            } else {
                let t = choose|t: int| 0 <= t < st.pairs.len() && (#[trigger] st.pairs[t]).0 == q;
                assert(nst.pairs[t] == st.pairs[t]);
            }
        }
        assert forall|t: int, q: int|
            0 <= t < nst.pairs.len() && (#[trigger] nst.pairs[t]).0 < q < nst.pairs[t].1
                && is_open_bracket(#[trigger] off_byte(b, nst, q)) implies exists|t2: int|
            0 <= t2 < nst.pairs.len() && (#[trigger] nst.pairs[t2]).0 == q && nst.pairs[t2].1
                < nst.pairs[t].1 by {
            assert(q < o);
            assert(off_byte(b, nst, q) == off_byte(b, st, q));
            if t < st.pairs.len() {
                assert(nst.pairs[t] == st.pairs[t]);
                let t2 = choose|t2: int|
                    0 <= t2 < st.pairs.len() && (#[trigger] st.pairs[t2]).0 == q && st.pairs[t2].1
                        < st.pairs[t].1;
                assert(nst.pairs[t2] == st.pairs[t2]);
            } else {
                // The opener `q` lies after the stack top, so it was closed
                // already.
                if exists|u: int| 0 <= u < st.stack.len() && (#[trigger] st.stack[u]).1 == q {
                    let u = choose|u: int| 0 <= u < st.stack.len() && (#[trigger] st.stack[u]).1 == q;
                    if u < top {
                        assert(st.stack[u].1 < st.stack[top].1);
                    }
                    assert(false);
                }
                let t2 = choose|t2: int| 0 <= t2 < st.pairs.len() && (#[trigger] st.pairs[t2]).0 == q;
                assert(nst.pairs[t2] == st.pairs[t2]);
            }
        }
        assert forall|t: int|
            0 <= t < nst.stack.len() implies (#[trigger] nst.stack[t]).1 < nst.offsets.len()
                && is_open_bracket(nst.stack[t].0) && off_byte(b, nst, nst.stack[t].1 as int)
                == nst.stack[t].0 by {
            assert(nst.stack[t] == st.stack[t]);
        }
        assert forall|t1: int, t2: int|
            0 <= t1 < t2 < nst.stack.len() implies (#[trigger] nst.stack[t1]).1
                < (#[trigger] nst.stack[t2]).1 by {
            assert(nst.stack[t1] == st.stack[t1]);
            assert(nst.stack[t2] == st.stack[t2]);
        }
        assert forall|t: int, u: int|
            0 <= t < nst.stack.len() && 0 <= u < nst.pairs.len() implies (#[trigger] nst.stack[t]).1
                != (#[trigger] nst.pairs[u]).0 by {
            assert(nst.stack[t] == st.stack[t]);
            if u < st.pairs.len() {
                assert(nst.pairs[u] == st.pairs[u]);
            } else {
                assert(st.stack[t].1 < st.stack[top].1);
            }
        }
        assert forall|t1: int, t2: int|
            0 <= t1 < nst.pairs.len() && 0 <= t2 < nst.pairs.len() && t1 != t2 implies (
            #[trigger] nst.pairs[t1]).0 != (#[trigger] nst.pairs[t2]).0 by {
            if t1 < st.pairs.len() {
                assert(nst.pairs[t1] == st.pairs[t1]);
            }
            if t2 < st.pairs.len() {
                assert(nst.pairs[t2] == st.pairs[t2]);
            }
        }
        assert forall|t: int|
            0 <= t < nst.pairs.len() implies (#[trigger] nst.pairs[t]).0 < nst.pairs[t].1
                < nst.offsets.len() && is_open_bracket(off_byte(b, nst, nst.pairs[t].0 as int))
                && off_byte(b, nst, nst.pairs[t].1 as int) == closer_of(
                off_byte(b, nst, nst.pairs[t].0 as int),
            ) by {
            if t < st.pairs.len() {
                assert(nst.pairs[t] == st.pairs[t]);
            }
        }
        assert forall|q1: int, q2: int|
            0 <= q1 < q2 < nst.offsets.len() implies #[trigger] nst.offsets[q1]
                < #[trigger] nst.offsets[q2] by {
            if q2 < o {
                assert(nst.offsets[q2] == st.offsets[q2]);
            }
            assert(nst.offsets[q1] == st.offsets[q1]);
        }
    } else {
        assert(nst.stack == st.stack && nst.pairs == st.pairs);
        assert(!is_open_bracket(c));
        assert forall|q: int|
            0 <= q < nst.offsets.len() && is_open_bracket(
                #[trigger] off_byte(b, nst, q),
            ) implies (exists|t: int|
            0 <= t < nst.stack.len() && (#[trigger] nst.stack[t]).1 == q) || (exists|t: int|
            0 <= t < nst.pairs.len() && (#[trigger] nst.pairs[t]).0 == q) by {
            assert(q != o);
            assert(off_byte(b, nst, q) == off_byte(b, st, q));
        }
        assert forall|t: int, q: int|
            0 <= t < nst.pairs.len() && (#[trigger] nst.pairs[t]).0 < q < nst.pairs[t].1
                && is_open_bracket(#[trigger] off_byte(b, nst, q)) implies exists|t2: int|
            0 <= t2 < nst.pairs.len() && (#[trigger] nst.pairs[t2]).0 == q && nst.pairs[t2].1
                < nst.pairs[t].1 by {
            assert(off_byte(b, nst, q) == off_byte(b, st, q));
        }
        assert forall|t: int|
            0 <= t < nst.stack.len() implies (#[trigger] nst.stack[t]).1 < nst.offsets.len()
                && is_open_bracket(nst.stack[t].0) && off_byte(b, nst, nst.stack[t].1 as int)
                == nst.stack[t].0 by {
        }
        assert forall|t: int|
            0 <= t < nst.pairs.len() implies (#[trigger] nst.pairs[t]).0 < nst.pairs[t].1
                < nst.offsets.len() && is_open_bracket(off_byte(b, nst, nst.pairs[t].0 as int))
                && off_byte(b, nst, nst.pairs[t].1 as int) == closer_of(
                off_byte(b, nst, nst.pairs[t].0 as int),
            ) by {
        }
        assert forall|q1: int, q2: int|
            0 <= q1 < q2 < nst.offsets.len() implies #[trigger] nst.offsets[q1]
                < #[trigger] nst.offsets[q2] by {
            if q2 < o {
                assert(nst.offsets[q2] == st.offsets[q2]);
            }
            assert(nst.offsets[q1] == st.offsets[q1]);
        }
    }
}


/// The scan invariant holds after every prefix the scan gets through.
proof fn lemma_scan_prefix_inv(b: Seq<u8>, i: nat, mark_newline: bool)
    requires
        i <= b.len(),
        b.len() < i32::MAX,
        scan_prefix(b, i, mark_newline) is Ok,
    ensures
        scan_inv(b, i as int, scan_prefix(b, i, mark_newline)->Ok_0),
        scan_prefix(b, i, mark_newline)->Ok_0.offsets.len() <= i,
    decreases i,
{
    if i == 0 {
        let st = scan_start();
        assert(scan_prefix(b, 0, mark_newline)->Ok_0 == st);
    } else {
        let j = (i - 1) as nat;
        lemma_scan_prefix_inv(b, j, mark_newline);
        let st = scan_prefix(b, j, mark_newline)->Ok_0;
        lemma_scan_step_inv(b, j as int, st, mark_newline);
    }
}

/// Writing the pairs one after another leaves the length alone and puts
/// each pair's closer at its opener's slot, when no opener is written twice.
proof fn lemma_apply_pairs(pp: Seq<i32>, pairs: Seq<(usize, usize)>)
    requires
        forall|t: int| 0 <= t < pairs.len() ==> (#[trigger] pairs[t]).0 + 1 < pp.len(),
        forall|t1: int, t2: int|
            0 <= t1 < pairs.len() && 0 <= t2 < pairs.len() && t1 != t2 ==> (#[trigger] pairs[t1]).0
                != (#[trigger] pairs[t2]).0,
    ensures
        apply_pairs(pp, pairs).len() == pp.len(),
        forall|t: int|
            0 <= t < pairs.len() ==> apply_pairs(pp, pairs)[(#[trigger] pairs[t]).0 + 1] == (
            pairs[t].1 + 1) as i32,
    decreases pairs.len(),
{
    if pairs.len() > 0 {
        let rest = pairs.drop_last();
        let last = pairs.len() - 1;
        assert forall|t1: int, t2: int|
            0 <= t1 < rest.len() && 0 <= t2 < rest.len() && t1 != t2 implies (
            #[trigger] rest[t1]).0 != (#[trigger] rest[t2]).0 by {
            assert(rest[t1] == pairs[t1] && rest[t2] == pairs[t2]);
        }
        assert forall|t: int| 0 <= t < rest.len() implies (#[trigger] rest[t]).0 + 1 < pp.len() by {
            assert(rest[t] == pairs[t]);
        }
        lemma_apply_pairs(pp, rest);
        assert forall|t: int| 0 <= t < pairs.len() implies apply_pairs(pp, pairs)[(
        #[trigger] pairs[t]).0 + 1] == (pairs[t].1 + 1) as i32 by {
            if t < last {
                assert(rest[t] == pairs[t]);
                assert(pairs[t].0 != pairs[last].0);
            }
        }
    }
}

/// An opener entry of a built tape is soundly paired.
proof fn lemma_built_opener_paired(doc: &Document, st: ScanState, i: int)
    requires
        scan_inv(doc.input@, doc.input@.len() as int, st),
        st.offsets.len() <= doc.input@.len() < i32::MAX,
        st.stack.len() == 0,
        doc.tape.structural@ == tape_structural(st.offsets),
        doc.tape.pair_pos@.len() == st.offsets.len() + 2,
        forall|t: int|
            0 <= t < st.pairs.len() ==> doc.tape.pair_pos@[(#[trigger] st.pairs[t]).0 + 1] == (
            st.pairs[t].1 + 1) as i32,
        0 < i < st.offsets.len() + 1,
        is_opener_byte(doc.spec_char(i)),
    ensures
        doc.pair_ok(i),
{
    let b = doc.input@;
    let s = doc.tape.structural@;
    let p = doc.tape.pair_pos@;
    let q = i - 1;
    assert(s[i] == st.offsets[q]);
    assert(doc.spec_char(i) == off_byte(b, st, q));
    assert(is_open_bracket(off_byte(b, st, q)));
    let t = choose|t: int| 0 <= t < st.pairs.len() && (#[trigger] st.pairs[t]).0 == q;
    let c = st.pairs[t].1 + 1;
    assert(p[i] == c as i32);
    assert(s[c] == st.offsets[c - 1]);
    assert(off_byte(b, st, c - 1) == closer_of(off_byte(b, st, q)));
    assert(doc.spec_char(c) == closer_byte(doc.spec_char(i)));
    assert forall|j: int| i < j < c && is_opener_byte(#[trigger] doc.spec_char(j)) implies p[j]
        < c by {
        assert(s[j] == st.offsets[j - 1]);
        assert(doc.spec_char(j) == off_byte(b, st, j - 1));
        assert(is_open_bracket(off_byte(b, st, j - 1)));
        let t2 = choose|t2: int|
            0 <= t2 < st.pairs.len() && (#[trigger] st.pairs[t2]).0 == j - 1 && st.pairs[t2].1
                < st.pairs[t].1;
        assert(p[j] == (st.pairs[t2].1 + 1) as i32);
    }
}

/// Every tape the builder produces, together with its input, is a
/// well-formed `Document`: the offsets are in range and increasing, and
/// every opener is paired with its matching closer, which closes after
/// every opener between them.
pub proof fn lemma_built_tape_wf(doc: &Document, mode: Mode)
    requires
        doc.input@.len() < i32::MAX,
        build_spec(doc.input@, mode) is Ok,
        doc.tape.structural@ == build_spec(doc.input@, mode)->Ok_0.0,
        doc.tape.pair_pos@ == build_spec(doc.input@, mode)->Ok_0.1,
    ensures
        doc.wf(),
{
    let b = doc.input@;
    let mn = mode == Mode::Lines;
    lemma_scan_prefix_inv(b, b.len(), mn);
    let st = scan_spec(b, mn)->Ok_0;
    assert(st == scan_prefix(b, b.len(), mn)->Ok_0);
    assert(scan_inv(b, b.len() as int, st));
    assert(st.stack.len() == 0);
    let n = st.offsets.len();
    let s = doc.tape.structural@;
    let p = doc.tape.pair_pos@;
    assert(s == tape_structural(st.offsets));
    assert(s.len() == n + 2);
    assert forall|k: int| 0 < k < n + 1 implies #[trigger] s[k] == st.offsets[k - 1] by {}
    let base = Seq::new(
        n + 2,
        |k: int|
            if k == 0 {
                (n + 1) as i32
            } else if k == n + 1 {
                0i32
            } else {
                -1i32
            },
    );
    assert forall|t: int| 0 <= t < st.pairs.len() implies (#[trigger] st.pairs[t]).0 + 1
        < base.len() by {}
    lemma_apply_pairs(base, st.pairs);
    assert(p == apply_pairs(base, st.pairs));
    assert(p.len() == n + 2);
    assert forall|i: int|
        0 < i < n + 1 && is_opener_byte(#[trigger] doc.spec_char(i)) implies doc.pair_ok(i) by {
        lemma_built_opener_paired(doc, st, i);
    }
    assert forall|i: int| 0 < i < doc.total() - 1 implies 1 <= #[trigger] s[i] <= b.len() by {
        assert(s[i] == st.offsets[i - 1]);
    }
    assert forall|i: int, j: int| 0 < i < j < doc.total() - 1 implies #[trigger] s[i]
        < #[trigger] s[j] by {
        assert(s[i] == st.offsets[i - 1]);
        assert(s[j] == st.offsets[j - 1]);
    }
}


/// Writing the pairs leaves every slot that no pair's opener names alone.
proof fn lemma_apply_pairs_untouched(pp: Seq<i32>, pairs: Seq<(usize, usize)>, k: int)
    requires
        0 <= k < pp.len(),
        forall|t: int| 0 <= t < pairs.len() ==> (#[trigger] pairs[t]).0 + 1 < pp.len(),
        forall|t: int| 0 <= t < pairs.len() ==> (#[trigger] pairs[t]).0 + 1 != k,
    ensures
        apply_pairs(pp, pairs)[k] == pp[k],
        apply_pairs(pp, pairs).len() == pp.len(),
    decreases pairs.len(),
{
    if pairs.len() > 0 {
        let rest = pairs.drop_last();
        assert forall|t: int| 0 <= t < rest.len() implies (#[trigger] rest[t]).0 + 1 != k && rest[t].0
            + 1 < pp.len() by {
            assert(rest[t] == pairs[t]);
        }
        lemma_apply_pairs_untouched(pp, rest, k);
        assert(pairs.last() == pairs[pairs.len() - 1]);
    }
}

/// The layout of every tape the builder produces: two arrays of the same
/// length, at least the two artificial entries; `structural` starts with
/// `0` and ends with its own last index; `pair_pos` pairs the artificial
/// open with the artificial close and back; every real entry is a
/// 1-based offset into the input; and `pair_pos` is `-1` at every real
/// entry that is not an opening bracket.
pub proof fn lemma_built_tape_layout(input: Seq<u8>, mode: Mode)
    requires
        input.len() < i32::MAX,
        build_spec(input, mode) is Ok,
    ensures
        ({
            let (s, p, d) = build_spec(input, mode)->Ok_0;
            let n = s.len() as int;
            &&& p.len() == n
            &&& n >= 2
            &&& s[0] == 0
            &&& s[n - 1] == n - 1
            &&& p[0] == n - 1
            &&& p[n - 1] == 0
            &&& forall|i: int| 0 < i < n - 1 ==> 1 <= #[trigger] s[i] <= input.len()
            &&& forall|i: int|
                0 < i < n - 1 && !is_open_bracket(input[s[i] - 1]) ==> #[trigger] p[i] == -1
        }),
{
    let mn = mode == Mode::Lines;
    lemma_scan_prefix_inv(input, input.len(), mn);
    let st = scan_spec(input, mn)->Ok_0;
    assert(st == scan_prefix(input, input.len(), mn)->Ok_0);
    let n = st.offsets.len();
    let s = tape_structural(st.offsets);
    let base = Seq::new(
        n + 2,
        |k: int|
            if k == 0 {
                (n + 1) as i32
            } else if k == n + 1 {
                0i32
            } else {
                -1i32
            },
    );
    assert forall|t: int| 0 <= t < st.pairs.len() implies (#[trigger] st.pairs[t]).0 + 1
        < base.len() by {}
    lemma_apply_pairs(base, st.pairs);
    let p = apply_pairs(base, st.pairs);
    assert(p == tape_pair_pos(n, st.pairs));
    assert(forall|t: int| 0 <= t < st.pairs.len() ==> (#[trigger] st.pairs[t]).0 + 1 != 0);
    lemma_apply_pairs_untouched(base, st.pairs, 0);
    assert forall|t: int| 0 <= t < st.pairs.len() implies (#[trigger] st.pairs[t]).0 + 1 != n + 1 by {}
    lemma_apply_pairs_untouched(base, st.pairs, (n + 1) as int);
    assert forall|i: int| 0 < i < n + 1 implies 1 <= #[trigger] s[i] <= input.len() by {
        assert(s[i] == st.offsets[i - 1]);
    }
    assert forall|i: int| 0 < i < n + 1 && !is_open_bracket(input[s[i] - 1]) implies #[trigger] p[i]
        == -1 by {
        assert(s[i] == st.offsets[i - 1]);
        assert forall|t: int| 0 <= t < st.pairs.len() implies (#[trigger] st.pairs[t]).0 + 1 != i by {
            if st.pairs[t].0 + 1 == i {
                assert(is_open_bracket(off_byte(input, st, st.pairs[t].0 as int)));
            }
        }
        lemma_apply_pairs_untouched(base, st.pairs, i);
    }
}

/// The input bytes that the offsets `offs` point at.
pub open spec fn entry_bytes(input: Seq<u8>, offs: Seq<i32>) -> Seq<u8> {
    offs.map_values(|o: i32| input[o - 1])
}

/// The brackets left open after the structural bytes `bs`.
pub open spec fn open_after(bs: Seq<u8>) -> int
    decreases bs.len(),
{
    if bs.len() == 0 {
        0
    } else {
        open_after(bs.drop_last()) + if is_open_bracket(bs.last()) {
            1int
        } else if is_close_bracket(bs.last()) {
            -1int
        } else {
            0int
        }
    }
}

/// The deepest bracket nesting reached over the structural bytes `bs`.
pub open spec fn max_open(bs: Seq<u8>) -> int
    decreases bs.len(),
{
    if bs.len() == 0 {
        0
    } else if max_open(bs.drop_last()) < open_after(bs) {
        open_after(bs)
    } else {
        max_open(bs.drop_last())
    }
}

/// What the scan over the first `i` bytes keeps of the tape format: each
/// offset points, within those bytes, at a structural byte; the open
/// brackets are those the offsets leave open; the deepest nesting is the
/// deepest they reach.
pub open spec fn scan_tracks(b: Seq<u8>, i: int, st: ScanState, mark_newline: bool) -> bool {
    &&& forall|q: int|
        0 <= q < st.offsets.len() ==> 1 <= #[trigger] st.offsets[q] <= i && is_structural_byte(
            b[st.offsets[q] - 1],
            mark_newline,
        )
    &&& st.stack.len() == open_after(entry_bytes(b, st.offsets))
    &&& st.max_depth == max_open(entry_bytes(b, st.offsets))
    &&& max_open(entry_bytes(b, st.offsets)) >= open_after(entry_bytes(b, st.offsets))
}

proof fn lemma_scan_tracks(b: Seq<u8>, i: nat, mark_newline: bool)
    requires
        i <= b.len(),
        b.len() < i32::MAX,
        scan_prefix(b, i, mark_newline) is Ok,
    ensures
        scan_tracks(b, i as int, scan_prefix(b, i, mark_newline)->Ok_0, mark_newline),
    decreases i,
{
    if i == 0 {
        assert(entry_bytes(b, Seq::<i32>::empty()) =~= Seq::<u8>::empty());
    } else {
        let j = (i - 1) as nat;
        lemma_scan_err_free_prefix(b, j, mark_newline);
        lemma_scan_tracks(b, j, mark_newline);
        let st = scan_prefix(b, j, mark_newline)->Ok_0;
        let c = b[j as int];
        let nst = scan_step(st, c, j as int, mark_newline)->Ok_0;
        let bs = entry_bytes(b, st.offsets);
        if nst.offsets != st.offsets {
            let no = st.offsets.push((j + 1) as i32);
            assert(nst.offsets == no);
            let nbs = entry_bytes(b, no);
            assert(nbs =~= bs.push(c));
            assert(nbs.drop_last() =~= bs);
            assert(nbs.last() == c);
            assert forall|q: int| 0 <= q < no.len() implies 1 <= #[trigger] no[q] <= i
                && is_structural_byte(b[no[q] - 1], mark_newline) by {
                if q < st.offsets.len() {
                    assert(no[q] == st.offsets[q]);
                }
            }
        }
    }
}

/// A scan that succeeds over some bytes succeeded over every shorter
/// prefix of them.
proof fn lemma_scan_err_free_prefix(b: Seq<u8>, j: nat, mark_newline: bool)
    requires
        scan_prefix(b, j + 1, mark_newline) is Ok,
    ensures
        scan_prefix(b, j, mark_newline) is Ok,
{
}

/// The tape format of every tape the builder produces: each real entry
/// points at a structural byte of the input (`{ } [ ] : ,`, and newlines
/// in `Mode::Lines`), outside any string; the entries increase; and the
/// recorded depth is the deepest bracket nesting over the entries.
pub proof fn lemma_built_tape_format(input: Seq<u8>, mode: Mode)
    requires
        input.len() < i32::MAX,
        build_spec(input, mode) is Ok,
    ensures
        ({
            let (s, p, d) = build_spec(input, mode)->Ok_0;
            let n = s.len() as int;
            &&& n >= 2
            &&& forall|i: int|
                0 < i < n - 1 ==> 1 <= #[trigger] s[i] <= input.len() && is_structural_byte(
                    input[s[i] - 1],
                    mode == Mode::Lines,
                )
            &&& forall|i: int, j: int| 0 < i < j < n - 1 ==> #[trigger] s[i] < #[trigger] s[j]
            &&& d == max_open(entry_bytes(input, s.subrange(1, n - 1)))
        }),
{
    let mn = mode == Mode::Lines;
    lemma_scan_prefix_inv(input, input.len(), mn);
    lemma_scan_tracks(input, input.len(), mn);
    let st = scan_spec(input, mn)->Ok_0;
    assert(st == scan_prefix(input, input.len(), mn)->Ok_0);
    let s = tape_structural(st.offsets);
    let n = s.len() as int;
    assert(s.subrange(1, n - 1) =~= st.offsets);
    assert forall|i: int| 0 < i < n - 1 implies #[trigger] s[i] == st.offsets[i - 1] by {}
    assert forall|i: int, j: int| 0 < i < j < n - 1 implies #[trigger] s[i] < #[trigger] s[j] by {
        assert(s[i] == st.offsets[i - 1]);
        assert(s[j] == st.offsets[j - 1]);
    }
}

/// Whether the scan, after the first `j` bytes, is outside any string.
pub open spec fn outside_string(b: Seq<u8>, j: int, mark_newline: bool) -> bool {
    scan_prefix(b, j as nat, mark_newline) is Ok && !scan_prefix(
        b,
        j as nat,
        mark_newline,
    )->Ok_0.in_string
}

/// A scan that has succeeded over the first `i` bytes succeeded over every
/// shorter prefix.
proof fn lemma_scan_ok_before(b: Seq<u8>, k: nat, i: nat, mark_newline: bool)
    requires
        k <= i,
        scan_prefix(b, i, mark_newline) is Ok,
    ensures
        scan_prefix(b, k, mark_newline) is Ok,
{
    if scan_prefix(b, k, mark_newline) is Err {
        lemma_scan_err_sticky(b, k, i, mark_newline);
    }
}

/// After the first `i` bytes, the scan has an entry for exactly the
/// structural bytes met outside strings: each entry is one, and each one
/// has an entry.
proof fn lemma_scan_entries_exact(b: Seq<u8>, i: nat, mark_newline: bool)
    requires
        i <= b.len(),
        b.len() < i32::MAX,
        scan_prefix(b, i, mark_newline) is Ok,
    ensures
        ({
            let st = scan_prefix(b, i, mark_newline)->Ok_0;
            &&& forall|q: int|
                0 <= q < st.offsets.len() ==> {
                    let o = #[trigger] st.offsets[q];
                    &&& 1 <= o <= i
                    &&& outside_string(b, o - 1, mark_newline)
                    &&& is_structural_byte(b[o - 1], mark_newline)
                }
            &&& forall|j: int|
                0 <= j < i && outside_string(b, j, mark_newline) && is_structural_byte(
                    #[trigger] b[j],
                    mark_newline,
                ) ==> st.offsets.contains((j + 1) as i32)
        }),
    decreases i,
{
    if i > 0 {
        let j = (i - 1) as nat;
        lemma_scan_err_free_prefix(b, j, mark_newline);
        lemma_scan_entries_exact(b, j, mark_newline);
        let st = scan_prefix(b, j, mark_newline)->Ok_0;
        let nst = scan_prefix(b, i, mark_newline)->Ok_0;
        let c = b[j as int];
        assert(nst == scan_step(st, c, j as int, mark_newline)->Ok_0);
        assert(nst.offsets == st.offsets || nst.offsets == st.offsets.push((j + 1) as i32));
        if nst.offsets != st.offsets {
            let no = nst.offsets;
            assert(!st.in_string && is_structural_byte(c, mark_newline));
            assert(outside_string(b, j as int, mark_newline));
            assert forall|q: int| 0 <= q < no.len() implies {
                let o = #[trigger] no[q];
                &&& 1 <= o <= i
                &&& outside_string(b, o - 1, mark_newline)
                &&& is_structural_byte(b[o - 1], mark_newline)
            } by {
                if q < st.offsets.len() {
                    assert(no[q] == st.offsets[q]);
                }
            }
            assert forall|k: int|
                0 <= k < i && outside_string(b, k, mark_newline) && is_structural_byte(
                    #[trigger] b[k],
                    mark_newline,
                ) implies no.contains((k + 1) as i32) by {
                if k < j {
                    let q = choose|q: int| 0 <= q < st.offsets.len() && st.offsets[q] == (k
                        + 1) as i32;
                    assert(no[q] == st.offsets[q]);
                } else {
                    assert(no[no.len() - 1] == (j + 1) as i32);
                }
            }
        } else {
            assert forall|k: int|
                0 <= k < i && outside_string(b, k, mark_newline) && is_structural_byte(
                    #[trigger] b[k],
                    mark_newline,
                ) implies nst.offsets.contains((k + 1) as i32) by {
                if k == j {
                    assert(!st.in_string);
                    assert(c != QUOTE);
                }
            }
        }
    }
}

/// Every real entry of a built tape points at a structural byte that lies
/// outside any string literal, and every structural byte outside string
/// literals has an entry: a `:` or `,` (or newline) inside a string never
/// yields one.
#[verifier::spinoff_prover]
#[verifier::rlimit(40)]
pub proof fn lemma_built_tape_entries_outside_strings(input: Seq<u8>, mode: Mode)
    requires
        input.len() < i32::MAX,
        build_spec(input, mode) is Ok,
    ensures
        ({
            let (s, p, d) = build_spec(input, mode)->Ok_0;
            let n = s.len() as int;
            let mn = mode == Mode::Lines;
            &&& forall|k: int|
                0 < k < n - 1 ==> outside_string(input, #[trigger] s[k] - 1, mn)
                    && is_structural_byte(input[s[k] - 1], mn)
            &&& forall|j: int|
                0 <= j < input.len() && outside_string(input, j, mn) && is_structural_byte(
                    #[trigger] input[j],
                    mn,
                ) ==> exists|k: int| 0 < k < n - 1 && #[trigger] s[k] == j + 1
        }),
{
    let mn = mode == Mode::Lines;
    lemma_scan_entries_exact(input, input.len(), mn);
    let st = scan_spec(input, mn)->Ok_0;
    assert(st == scan_prefix(input, input.len(), mn)->Ok_0);
    let s = tape_structural(st.offsets);
    let n = s.len() as int;
    assert(build_spec(input, mode)->Ok_0.0 == s);
    assert forall|k: int| 0 < k < n - 1 implies #[trigger] s[k] == st.offsets[k - 1] by {}
    assert forall|k: int| 0 < k < n - 1 implies outside_string(input, #[trigger] s[k] - 1, mn)
        && is_structural_byte(input[s[k] - 1], mn) by {
        assert(s[k] == st.offsets[k - 1]);
    }
    assert forall|j: int|
        0 <= j < input.len() && outside_string(input, j, mn) && is_structural_byte(
            #[trigger] input[j],
            mn,
        ) implies exists|k: int| 0 < k < n - 1 && #[trigger] s[k] == j + 1 by {
        let q = choose|q: int| 0 <= q < st.offsets.len() && st.offsets[q] == (j + 1) as i32;
        assert(s[q + 1] == st.offsets[q]);
        assert(0 < q + 1 < n - 1 && s[q + 1] == j + 1);
    }
}

/// Before the first quote, the scan is outside any string.
proof fn lemma_outside_before_first_quote(b: Seq<u8>, j: nat, mark_newline: bool)
    requires
        j <= b.len(),
        scan_prefix(b, j, mark_newline) is Ok,
        forall|k: int| 0 <= k < j ==> b[k] != QUOTE,
    ensures
        !scan_prefix(b, j, mark_newline)->Ok_0.in_string,
        !scan_prefix(b, j, mark_newline)->Ok_0.escape,
    decreases j,
{
    if j > 0 {
        lemma_scan_err_free_prefix(b, (j - 1) as nat, mark_newline);
        lemma_outside_before_first_quote(b, (j - 1) as nat, mark_newline);
    }
}

/// Inside a string opened at `j`, bytes that are neither a quote nor a
/// backslash keep the scan in the string, with no escape pending.
proof fn lemma_inside_string(b: Seq<u8>, j: nat, t: nat, mark_newline: bool)
    requires
        j < t <= b.len(),
        scan_prefix(b, t, mark_newline) is Ok,
        !scan_prefix(b, j, mark_newline)->Ok_0.in_string,
        !scan_prefix(b, j, mark_newline)->Ok_0.escape,
        scan_prefix(b, j, mark_newline) is Ok,
        b[j as int] == QUOTE,
        forall|k: int| j < k < t ==> b[k] != QUOTE && b[k] != BACKSLASH,
    ensures
        scan_prefix(b, t, mark_newline)->Ok_0.in_string,
        !scan_prefix(b, t, mark_newline)->Ok_0.escape,
    decreases t - j,
{
    if t > j + 1 {
        lemma_scan_err_free_prefix(b, (t - 1) as nat, mark_newline);
        lemma_inside_string(b, j, (t - 1) as nat, mark_newline);
    }
}

/// The text of a first string literal yields no entry: where the input
/// has no quote before `j`, a quote at `j`, and neither a quote nor a
/// backslash from `j + 1` through `i`, the byte at `i` has no entry,
/// whatever it is (`:` and `,` included).
pub proof fn lemma_string_text_has_no_entry(input: Seq<u8>, mode: Mode, j: int, i: int)
    requires
        input.len() < i32::MAX,
        build_spec(input, mode) is Ok,
        0 <= j < i < input.len(),
        forall|k: int| 0 <= k < j ==> input[k] != QUOTE,
        input[j] == QUOTE,
        forall|k: int| j < k <= i ==> input[k] != QUOTE && input[k] != BACKSLASH,
    ensures
        ({
            let s = build_spec(input, mode)->Ok_0.0;
            forall|k: int| 0 < k < s.len() - 1 ==> #[trigger] s[k] != i + 1
        }),
{
    let mn = mode == Mode::Lines;
    let s = build_spec(input, mode)->Ok_0.0;
    lemma_scan_ok_before(input, i as nat, input.len(), mn);
    lemma_scan_ok_before(input, j as nat, input.len(), mn);
    lemma_outside_before_first_quote(input, j as nat, mn);
    lemma_inside_string(input, j as nat, i as nat, mn);
    lemma_built_tape_entries_outside_strings(input, mode);
    assert forall|k: int| 0 < k < s.len() - 1 implies #[trigger] s[k] != i + 1 by {
        if s[k] == i + 1 {
            assert(outside_string(input, i, mn));
        }
    }
}

} // verus!
