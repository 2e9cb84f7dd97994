//! One checksum, computed identically over either parser's output: every
//! node is visited, every string and key unescaped and every number parsed,
//! so that neither parser skips work the other does. Object entries are
//! combined commutatively, since another parser's object iteration order
//! need not be the document order.

use vstd::prelude::*;
use vstd::string::StringSliceAdditionalSpecFns;
use vstd::wrapping::u64_specs::{wrapping_add, wrapping_mul};

use crate::tape::SpecEvent;

verus! {

pub const TAG_NULL: u64 = 0x11;
pub const TAG_BOOL: u64 = 0x22;
pub const TAG_INT: u64 = 0x33;
pub const TAG_FLOAT: u64 = 0x44;
pub const TAG_STR: u64 = 0x55;
pub const TAG_ARR: u64 = 0x66;
pub const TAG_OBJ: u64 = 0x77;

/// The odd multiplier of `mix`.
pub const MIX_FACTOR: u64 = 0x517c_c1b7_2722_0a95;

/// `h` rotated left by 5 bits.
pub open spec fn rotl5(h: u64) -> u64 {
    (h << 5u64) | (h >> 59u64)
}

/// One mixing step: rotate the state, xor in `x`, multiply (wrapping).
pub open spec fn mix_spec(h: u64, x: u64) -> u64 {
    wrapping_mul(rotl5(h) ^ x, MIX_FACTOR)
}

/// One mixing step: rotate the state, xor in `x`, multiply (wrapping).
pub fn mix(h: u64, x: u64) -> (r: u64)
    ensures
        r == mix_spec(h, x),
{
    (((h << 5u64) | (h >> 59u64)) ^ x).wrapping_mul(MIX_FACTOR)
}

/// The little-endian value of the bytes `b`.
pub open spec fn le_value(b: Seq<u8>) -> int
    decreases b.len(),
{
    if b.len() == 0 {
        0
    } else {
        b[0] + 256 * le_value(b.drop_first())
    }
}

/// `256` to the power `n`.
pub open spec fn pow256(n: nat) -> int
    decreases n,
{
    if n == 0 {
        1
    } else {
        256 * pow256((n - 1) as nat)
    }
}

proof fn lemma_le_value_bound(b: Seq<u8>)
    ensures
        0 <= le_value(b) < pow256(b.len()),
    decreases b.len(),
{
    if b.len() > 0 {
        lemma_le_value_bound(b.drop_first());
    }
}

/// The 64-bit word of the (up to 8) bytes of `b` from `i`, little-endian,
/// with missing bytes as zeros.
pub open spec fn word_at(b: Seq<u8>, i: int) -> u64 {
    let end = if i + 8 <= b.len() {
        i + 8
    } else {
        b.len() as int
    };
    le_value(b.subrange(i, end)) as u64
}

/// The hash state after mixing in the words of `b` from `i` on: each full
/// 8-byte word, then the zero-padded remainder (possibly empty).
pub open spec fn hash_from(b: Seq<u8>, h: u64, i: int) -> u64
    decreases b.len() - i,
{
    if i + 8 <= b.len() {
        hash_from(b, mix_spec(h, word_at(b, i)), i + 8)
    } else {
        mix_spec(h, word_at(b, i))
    }
}

/// The hash of `b`: its length, then its words, mixed in.
pub open spec fn hash_bytes_spec(b: Seq<u8>) -> u64 {
    hash_from(b, b.len() as u64, 0)
}

/// The little-endian word of `b[i..end]`.
fn word(b: &[u8], i: usize, end: usize) -> (w: u64)
    requires
        i <= end <= b@.len(),
        end - i <= 8,
    ensures
        w == le_value(b@.subrange(i as int, end as int)),
{
    let mut w: u64 = 0;
    let mut k: usize = end;
    proof {
        assert(b@.subrange(end as int, end as int).len() == 0);
        lemma_pow256_mono((end - k) as nat, 8);
    }
    while k > i
        invariant
            i <= k <= end <= b@.len(),
            end - i <= 8,
            w == le_value(b@.subrange(k as int, end as int)),
            w < pow256((end - k) as nat),
            pow256((end - k) as nat) <= pow256(8),
        decreases k - i,
    {
        k -= 1;
        proof {
            assert(b@.subrange(k as int, end as int).drop_first() =~= b@.subrange(
                k + 1,
                end as int,
            ));
            lemma_le_value_bound(b@.subrange(k as int, end as int));
            lemma_pow256_mono((end - k) as nat, 8);
            reveal_with_fuel(pow256, 9);
            assert(pow256(8) == 0x1_0000_0000_0000_0000int);
        }
        w = b[k] as u64 + 256 * w;
    }
    w
}

proof fn lemma_pow256_mono(a: nat, b: nat)
    requires
        a <= b,
    ensures
        pow256(a) <= pow256(b),
        pow256(a) >= 1,
    decreases b,
{
    if a < b {
        lemma_pow256_mono(a, (b - 1) as nat);
    } else if a > 0 {
        lemma_pow256_mono((a - 1) as nat, (a - 1) as nat);
    }
}

/// The hash of a byte string: its length, then each 8-byte little-endian
/// word, then the zero-padded remaining bytes, mixed in.
pub fn hash_bytes(b: &[u8]) -> (h: u64)
    ensures
        h == hash_bytes_spec(b@),
{
    let n = b.len();
    let mut h: u64 = n as u64;
    let mut i: usize = 0;
    while n - i >= 8
        invariant
            n == b@.len(),
            i <= n,
            hash_from(b@, h, i as int) == hash_bytes_spec(b@),
        decreases n - i,
    {
        let w = word(b, i, i + 8);
        h = mix(h, w);
        i += 8;
    }
    let w = word(b, i, n);
    mix(h, w)
}

/// The hash of an integer value.
pub fn hash_int(i: i64) -> (h: u64)
    ensures
        h == mix_spec(TAG_INT, i as u64),
{
    mix(TAG_INT, i as u64)
}


/// An open container during a visit: whether it is an object, its running
/// combination, its child count, and (in an object) the hash of the key
/// of the next member.
#[derive(Debug, Clone, Copy)]
pub struct Frame {
    pub obj: bool,
    pub acc: u64,
    pub len: u64,
    pub key: u64,
}

/// The checksum of a finished container: an object's entries are combined
/// by addition, so in any order; an array's elements in order.
pub open spec fn close_hash(f: Frame) -> u64 {
    if f.obj {
        mix_spec(mix_spec(TAG_OBJ, f.len), f.acc)
    } else {
        mix_spec(f.acc, f.len)
    }
}

/// The same checksum as a walk over the nodes, computed from visit events:
/// one frame per open container; top-level values are summed into `hash`
/// and counted in `rows`.
#[derive(Debug)]
pub struct HashVisitor {
    pub stack: Vec<Frame>,
    pub rows: u64,
    pub hash: u64,
}

impl HashVisitor {
    /// The open containers, outermost first.
    pub open spec fn frames(&self) -> Seq<Frame> {
        self.stack@
    }

    /// Whether a value can be counted without overflow: below the top-level
    /// row limit and every open container's child limit.
    pub open spec fn room(&self) -> bool {
        &&& self.rows < u64::MAX
        &&& forall|k: int| 0 <= k < self.frames().len() ==> (#[trigger] self.frames()[k]).len
            < u64::MAX
    }

    /// What taking in a value's hash `h` does: it joins the innermost open
    /// container (keyed by the member's key in an object), or, at the top
    /// level, is added to `hash` and counted as a row.
    pub open spec fn fed(&self, h: u64) -> (Seq<Frame>, u64, u64) {
        fed_state(self.frames(), self.rows, self.hash, h)
    }

    /// A visitor with no open container, no rows and a zero hash.
    pub fn new() -> (v: HashVisitor)
        ensures
            v.frames().len() == 0,
            v.rows == 0,
            v.hash == 0,
    {
        HashVisitor { stack: Vec::new(), rows: 0, hash: 0 }
    }

    /// Whether `room` holds.
    pub fn has_room(&self) -> (b: bool)
        ensures
            b == self.room(),
    {
        if self.rows == u64::MAX {
            return false;
        }
        let mut k: usize = 0;
        while k < self.stack.len()
            invariant
                0 <= k <= self.stack@.len(),
                forall|j: int| 0 <= j < k ==> (#[trigger] self.stack@[j]).len < u64::MAX,
            decreases self.stack@.len() - k,
        {
            if self.stack[k].len == u64::MAX {
                assert(self.frames()[k as int].len == u64::MAX);
                return false;
            }
            k += 1;
        }
        true
    }

    /// Takes in the hash `h` of a finished value.
    pub fn feed(&mut self, h: u64)
        requires
            old(self).room(),
        ensures
            (final(self).frames(), final(self).rows, final(self).hash) == old(self).fed(h),
    {
        let n = self.stack.len();
        if n == 0 {
            self.hash = self.hash.wrapping_add(h);
            self.rows = self.rows + 1;
        } else {
            let f = self.stack[n - 1];
            assert(f.len < u64::MAX) by {
                assert(self.frames()[n - 1] == f);
            }
            let nf = if f.obj {
                Frame { acc: f.acc.wrapping_add(mix(f.key, h)), len: f.len + 1, ..f }
            } else {
                Frame { acc: mix(f.acc, h), len: f.len + 1, ..f }
            };
            self.stack.set(n - 1, nf);
            assert(self.stack@ =~= old(self).stack@.drop_last().push(nf));
        }
    }

    /// Finishes the innermost open container and takes in its checksum.
    fn end(&mut self)
        requires
            old(self).frames().len() > 0,
            forall|k: int|
                0 <= k < old(self).frames().len() - 1 ==> (#[trigger] old(self).frames()[k]).len
                    < u64::MAX,
            old(self).rows < u64::MAX,
        ensures
            ({
                let f = old(self).frames().last();
                (final(self).frames(), final(self).rows, final(self).hash) == fed_after_pop(
                    old(self).frames(),
                    old(self).rows,
                    old(self).hash,
                    close_hash(f),
                )
            }),
    {
        let f = self.stack.pop().unwrap();
        let h = if f.obj {
            mix(mix(TAG_OBJ, f.len), f.acc)
        } else {
            mix(f.acc, f.len)
        };
        assert(self.stack@ == old(self).stack@.drop_last());
        self.feed(h);
    }

    /// Opens an object.
    pub fn begin_object(&mut self)
        ensures
            final(self).frames() == old(self).frames().push(
                Frame { obj: true, acc: 0, len: 0, key: 0 },
            ),
            final(self).rows == old(self).rows,
            final(self).hash == old(self).hash,
    {
        self.stack.push(Frame { obj: true, acc: 0, len: 0, key: 0 });
    }

    /// Opens an array.
    pub fn begin_array(&mut self)
        ensures
            final(self).frames() == old(self).frames().push(
                Frame { obj: false, acc: TAG_ARR, len: 0, key: 0 },
            ),
            final(self).rows == old(self).rows,
            final(self).hash == old(self).hash,
    {
        self.stack.push(Frame { obj: false, acc: TAG_ARR, len: 0, key: 0 });
    }

    /// Closes the innermost object.
    pub fn end_object(&mut self)
        requires
            old(self).frames().len() > 0,
            old(self).room(),
        ensures
            (final(self).frames(), final(self).rows, final(self).hash) == fed_after_pop(
                old(self).frames(),
                old(self).rows,
                old(self).hash,
                close_hash(old(self).frames().last()),
            ),
    {
        self.end();
    }

    /// Closes the innermost array.
    pub fn end_array(&mut self)
        requires
            old(self).frames().len() > 0,
            old(self).room(),
        ensures
            (final(self).frames(), final(self).rows, final(self).hash) == fed_after_pop(
                old(self).frames(),
                old(self).rows,
                old(self).hash,
                close_hash(old(self).frames().last()),
            ),
    {
        self.end();
    }

    /// Records the key of the next member of the innermost object.
    pub fn key(&mut self, key: &str)
        requires
            old(self).frames().len() > 0,
        ensures
            final(self).frames() == old(self).frames().drop_last().push(
                Frame { key: hash_bytes_spec(key.spec_bytes()), ..old(self).frames().last() },
            ),
            final(self).rows == old(self).rows,
            final(self).hash == old(self).hash,
    {
        let n = self.stack.len();
        let f = self.stack[n - 1];
        let h = hash_bytes(key.as_bytes());
        self.stack.set(n - 1, Frame { key: h, ..f });
        assert(self.stack@ =~= old(self).stack@.drop_last().push(Frame { key: h, ..f }));
    }

    /// Takes in a string value.
    pub fn string(&mut self, value: &str)
        requires
            old(self).room(),
        ensures
            (final(self).frames(), final(self).rows, final(self).hash) == old(self).fed(
                mix_spec(TAG_STR, hash_bytes_spec(value.spec_bytes())),
            ),
    {
        let h = hash_bytes(value.as_bytes());
        self.feed(mix(TAG_STR, h));
    }

    /// Takes in an integer value.
    pub fn integer(&mut self, value: i64)
        requires
            old(self).room(),
        ensures
            (final(self).frames(), final(self).rows, final(self).hash) == old(self).fed(
                mix_spec(TAG_INT, value as u64),
            ),
    {
        self.feed(hash_int(value));
    }

    /// Takes in a boolean value.
    pub fn boolean(&mut self, value: bool)
        requires
            old(self).room(),
        ensures
            (final(self).frames(), final(self).rows, final(self).hash) == old(self).fed(
                mix_spec(TAG_BOOL, if value {
                    1
                } else {
                    0
                }),
            ),
    {
        let b: u64 = if value {
            1
        } else {
            0
        };
        self.feed(mix(TAG_BOOL, b));
    }

    /// Takes in a null.
    pub fn null(&mut self)
        requires
            old(self).room(),
        ensures
            (final(self).frames(), final(self).rows, final(self).hash) == old(self).fed(TAG_NULL),
    {
        self.feed(TAG_NULL);
    }
}

/// `fed` on the state whose innermost frame has just been removed.
pub open spec fn fed_after_pop(st: Seq<Frame>, rows: u64, hash: u64, h: u64) -> (
    Seq<Frame>,
    u64,
    u64,
) {
    fed_state(st.drop_last(), rows, hash, h)
}

/// What taking in a value's hash `h` does to the open containers `st`,
/// the row count and the hash: it joins the innermost open container
/// (keyed by the member's key in an object), or, at the top level, is
/// added to `hash` and counted as a row.
pub open spec fn fed_state(st: Seq<Frame>, rows: u64, hash: u64, h: u64) -> (
    Seq<Frame>,
    u64,
    u64,
) {
    if st.len() == 0 {
        (st, (rows + 1) as u64, wrapping_add(hash, h))
    } else {
        let f = st.last();
        let nf = if f.obj {
            Frame { acc: wrapping_add(f.acc, mix_spec(f.key, h)), len: (f.len + 1) as u64, ..f }
        } else {
            Frame { acc: mix_spec(f.acc, h), len: (f.len + 1) as u64, ..f }
        };
        (st.drop_last().push(nf), rows, hash)
    }
}

/// The state after taking in the finished top-level values `hs`, one
/// after another, starting with no open container.
pub open spec fn fed_rows(rows: u64, hash: u64, hs: Seq<u64>) -> (Seq<Frame>, u64, u64)
    decreases hs.len(),
{
    if hs.len() == 0 {
        (Seq::empty(), rows, hash)
    } else {
        let p = fed_rows(rows, hash, hs.drop_last());
        fed_state(p.0, p.1, p.2, hs.last())
    }
}

/// The wrapping sum of the row checksums `hs`.
pub open spec fn row_sum(hs: Seq<u64>) -> u64
    decreases hs.len(),
{
    if hs.len() == 0 {
        0
    } else {
        wrapping_add(row_sum(hs.drop_last()), hs.last())
    }
}

proof fn lemma_wrapping_add_assoc(a: u64, b: u64, c: u64)
    ensures
        wrapping_add(wrapping_add(a, b), c) == wrapping_add(a, wrapping_add(b, c)),
        wrapping_add(a, b) == wrapping_add(b, a),
        wrapping_add(a, 0) == a,
{
}

/// The row sum of two runs of rows is the wrapping sum of their row sums.
proof fn lemma_row_sum_concat(a: Seq<u64>, b: Seq<u64>)
    ensures
        row_sum(a + b) == wrapping_add(row_sum(a), row_sum(b)),
    decreases b.len(),
{
    if b.len() == 0 {
        assert(a + b =~= a);
        lemma_wrapping_add_assoc(row_sum(a), 0, 0);
    } else {
        assert((a + b).drop_last() =~= a + b.drop_last());
        lemma_row_sum_concat(a, b.drop_last());
        lemma_wrapping_add_assoc(row_sum(a), row_sum(b.drop_last()), b.last());
    }
}

/// Taking in finished top-level values leaves no container open, counts
/// each of them as a row and adds their checksums to the hash.
pub proof fn lemma_rows_add_up(rows: u64, hash: u64, hs: Seq<u64>)
    requires
        rows + hs.len() <= u64::MAX,
    ensures
        fed_rows(rows, hash, hs) == (
            Seq::<Frame>::empty(),
            (rows + hs.len()) as u64,
            wrapping_add(hash, row_sum(hs)),
        ),
    decreases hs.len(),
{
    if hs.len() == 0 {
        lemma_wrapping_add_assoc(hash, 0, 0);
    } else {
        lemma_rows_add_up(rows, hash, hs.drop_last());
        lemma_wrapping_add_assoc(hash, row_sum(hs.drop_last()), hs.last());
    }
}

/// Rows visited in two runs, each by a fresh visitor, and combined as the
/// benchmark combines batches and row ranges (counts added, hashes added
/// with wrapping), give what one visitor gives over all the rows, in either
/// order of the runs.
pub proof fn lemma_split_runs_combine(a: Seq<u64>, b: Seq<u64>)
    requires
        a.len() + b.len() <= u64::MAX,
    ensures
        fed_rows(0, 0, a + b) == (
            Seq::<Frame>::empty(),
            (fed_rows(0, 0, a).1 + fed_rows(0, 0, b).1) as u64,
            wrapping_add(fed_rows(0, 0, a).2, fed_rows(0, 0, b).2),
        ),
        fed_rows(0, 0, a + b) == fed_rows(0, 0, b + a),
{
    lemma_rows_add_up(0, 0, a);
    lemma_rows_add_up(0, 0, b);
    lemma_rows_add_up(0, 0, a + b);
    lemma_rows_add_up(0, 0, b + a);
    lemma_row_sum_concat(a, b);
    lemma_row_sum_concat(b, a);
    lemma_wrapping_add_assoc(0, row_sum(a), 0);
    lemma_wrapping_add_assoc(0, row_sum(b), 0);
    lemma_wrapping_add_assoc(0, row_sum(a + b), 0);
    lemma_wrapping_add_assoc(row_sum(a), row_sum(b), 0);
    lemma_wrapping_add_assoc(0, row_sum(b + a), 0);
}


/// What the visitor's method for the event `e` does to the state (open
/// containers, rows, hash); `num` is the checksum that the caller gives a
/// raw number. An end or a key with no open container changes nothing.
pub open spec fn event_fed(
    s: (Seq<Frame>, u64, u64),
    e: SpecEvent,
    num: spec_fn(Seq<u8>) -> u64,
) -> (Seq<Frame>, u64, u64) {
    let (st, rows, hash) = s;
    match e {
        SpecEvent::BeginObject => (st.push(Frame { obj: true, acc: 0, len: 0, key: 0 }), rows, hash),
        SpecEvent::BeginArray => (
            st.push(Frame { obj: false, acc: TAG_ARR, len: 0, key: 0 }),
            rows,
            hash,
        ),
        SpecEvent::EndObject | SpecEvent::EndArray => if st.len() > 0 {
            fed_after_pop(st, rows, hash, close_hash(st.last()))
        } else {
            s
        },
        SpecEvent::Key(k) => if st.len() > 0 {
            (st.drop_last().push(Frame { key: hash_bytes_spec(k), ..st.last() }), rows, hash)
        } else {
            s
        },
        SpecEvent::Str(v) => fed_state(st, rows, hash, mix_spec(TAG_STR, hash_bytes_spec(v))),
        SpecEvent::Number(raw) => fed_state(st, rows, hash, num(raw)),
        SpecEvent::Bool(b) => fed_state(st, rows, hash, mix_spec(TAG_BOOL, if b {
            1
        } else {
            0
        })),
        SpecEvent::Null => fed_state(st, rows, hash, TAG_NULL),
    }
}

/// The state after the events `es`, one after another, from `s`.
pub open spec fn events_fed(
    s: (Seq<Frame>, u64, u64),
    es: Seq<SpecEvent>,
    num: spec_fn(Seq<u8>) -> u64,
) -> (Seq<Frame>, u64, u64)
    decreases es.len(),
{
    if es.len() == 0 {
        s
    } else {
        event_fed(events_fed(s, es.drop_last(), num), es.last(), num)
    }
}

/// Events after events: the run over `a + b` is the run over `b` from where
/// the run over `a` ended.
pub(crate) proof fn lemma_events_fed_concat(
    s: (Seq<Frame>, u64, u64),
    a: Seq<SpecEvent>,
    b: Seq<SpecEvent>,
    num: spec_fn(Seq<u8>) -> u64,
)
    ensures
        events_fed(s, a + b, num) == events_fed(events_fed(s, a, num), b, num),
    decreases b.len(),
{
    if b.len() == 0 {
        assert(a + b =~= a);
    } else {
        assert((a + b).drop_last() =~= a + b.drop_last());
        lemma_events_fed_concat(s, a, b.drop_last(), num);
    }
}

/// The row count and hash a run starts with are carried through: the open
/// containers do not depend on them, and what the run adds to them is what
/// it adds to zero.
proof fn lemma_events_fed_shift(
    st: Seq<Frame>,
    rows: u64,
    hash: u64,
    es: Seq<SpecEvent>,
    num: spec_fn(Seq<u8>) -> u64,
)
    requires
        rows + es.len() <= u64::MAX,
    ensures
        ({
            let z = events_fed((st, 0, 0), es, num);
            &&& z.1 <= es.len()
            &&& events_fed((st, rows, hash), es, num) == (
                z.0,
                (rows + z.1) as u64,
                wrapping_add(hash, z.2),
            )
        }),
    decreases es.len(),
{
    if es.len() == 0 {
        lemma_wrapping_add_assoc(hash, 0, 0);
    } else {
        let pre = es.drop_last();
        lemma_events_fed_shift(st, rows, hash, pre, num);
        let zp = events_fed((st, 0, 0), pre, num);
        let p = events_fed((st, rows, hash), pre, num);
        assert(p == (zp.0, (rows + zp.1) as u64, wrapping_add(hash, zp.2)));
        let e = es.last();
        let fr = zp.0;
        // The value a step hands to the top level depends on the frames only.
        let x: u64 = match e {
            SpecEvent::EndObject | SpecEvent::EndArray => close_hash(fr.last()),
            SpecEvent::Str(v) => mix_spec(TAG_STR, hash_bytes_spec(v)),
            SpecEvent::Number(raw) => num(raw),
            SpecEvent::Bool(b) => mix_spec(TAG_BOOL, if b {
                1
            } else {
                0
            }),
            _ => TAG_NULL,
        };
        lemma_wrapping_add_assoc(hash, zp.2, x);
    }
}

/// A visit that is cut where no container is open can be done by two fresh
/// visitors, one on each side of the cut, and combined as the benchmark
/// combines row ranges and batches: counts added, hashes added with
/// wrapping. What the whole visit leaves open is what the second part
/// leaves open.
pub proof fn lemma_visit_split_at_row_boundary(
    a: Seq<SpecEvent>,
    b: Seq<SpecEvent>,
    num: spec_fn(Seq<u8>) -> u64,
)
    requires
        events_fed((Seq::empty(), 0, 0), a, num).0.len() == 0,
        a.len() + b.len() <= u64::MAX,
    ensures
        ({
            let x = events_fed((Seq::empty(), 0, 0), a, num);
            let y = events_fed((Seq::empty(), 0, 0), b, num);
            events_fed((Seq::empty(), 0, 0), a + b, num) == (
                y.0,
                (x.1 + y.1) as u64,
                wrapping_add(x.2, y.2),
            )
        }),
{
    let e0: Seq<Frame> = Seq::empty();
    lemma_events_fed_concat((e0, 0, 0), a, b, num);
    lemma_events_fed_shift(e0, 0, 0, a, num);
    let x = events_fed((e0, 0, 0), a, num);
    assert(x.0 =~= e0);
    lemma_events_fed_shift(e0, x.1, x.2, b, num);
}

/// An object frame after the member with key hash `key` and value hash `h`
/// is taken in: what `key` followed by taking in the value does.
pub open spec fn add_member(f: Frame, key: u64, h: u64) -> Frame {
    Frame { acc: wrapping_add(f.acc, mix_spec(key, h)), len: (f.len + 1) as u64, key, ..f }
}

/// An object's checksum does not depend on the order of its members: two
/// members taken in either order close to the same checksum.
pub proof fn lemma_object_members_commute(f: Frame, k1: u64, h1: u64, k2: u64, h2: u64)
    requires
        f.obj,
        f.len + 2 <= u64::MAX,
    ensures
        close_hash(add_member(add_member(f, k1, h1), k2, h2)) == close_hash(
            add_member(add_member(f, k2, h2), k1, h1),
        ),
{
    let a = add_member(add_member(f, k1, h1), k2, h2);
    let b = add_member(add_member(f, k2, h2), k1, h1);
    assert(a.acc == b.acc);
    assert(a.len == b.len);
}

} // verus!
