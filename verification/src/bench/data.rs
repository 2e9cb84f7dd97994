//! Benchmark corpus: rows of a string column joined into JSON Lines
//! batches.

use vstd::prelude::*;
use vstd::string::StringSliceAdditionalSpecFns;

use crate::tape::text::{push_all, NEWLINE};

verus! {

/// Rows joined as JSON Lines: every row is followed by `\n`.
pub struct Batch {
    pub bytes: Vec<u8>,
    pub rows: usize,
}

/// The rows read from a file, in batches, with counts of the rows left out.
pub struct Corpus {
    pub batches: Vec<Batch>,
    pub file_rows: usize,
    pub null_rows: usize,
    pub empty_rows: usize,
    pub newline_rows: usize,
    pub max_row_bytes: usize,
}

/// Total rows over `b`.
pub open spec fn rows_sum(b: Seq<Batch>) -> int
    decreases b.len(),
{
    if b.len() == 0 {
        0
    } else {
        rows_sum(b.drop_last()) + b.last().rows
    }
}

/// Total bytes over `b`.
pub open spec fn bytes_sum(b: Seq<Batch>) -> int
    decreases b.len(),
{
    if b.len() == 0 {
        0
    } else {
        bytes_sum(b.drop_last()) + b.last().bytes@.len()
    }
}

/// Whether a row's text goes into a batch: it is not empty and holds no
/// newline (which would split it across two JSON Lines records).
pub open spec fn row_accepted(v: Seq<u8>) -> bool {
    v.len() > 0 && !v.contains(NEWLINE)
}

/// Whether appending a row of `len` bytes to a non-empty batch of
/// `cur_len` bytes would take it past `batch_bytes`, so that the batch is
/// closed first.
pub open spec fn closes_batch(cur_len: int, len: int, batch_bytes: int) -> bool {
    cur_len > 0 && cur_len + len + 1 > batch_bytes
}


/// The number of newline bytes in `s`.
pub open spec fn newlines(s: Seq<u8>) -> int
    decreases s.len(),
{
    if s.len() == 0 {
        0
    } else {
        newlines(s.drop_last()) + if s.last() == NEWLINE {
            1int
        } else {
            0
        }
    }
}

/// A batch is JSON Lines: one newline per row, ending the last one; and
/// only a batch of a single row is longer than `batch_bytes`.
pub open spec fn batch_ok(b: Batch, batch_bytes: int) -> bool {
    &&& newlines(b.bytes@) == b.rows
    &&& (b.bytes@.len() == 0 || b.bytes@.last() == NEWLINE)
    &&& (b.rows >= 2 ==> b.bytes@.len() <= batch_bytes)
}

/// Every batch of `bs` is `batch_ok`.
pub open spec fn batches_ok(bs: Seq<Batch>, batch_bytes: int) -> bool {
    forall|k: int| 0 <= k < bs.len() ==> batch_ok(#[trigger] bs[k], batch_bytes)
}

proof fn lemma_newlines_add(a: Seq<u8>, b: Seq<u8>)
    ensures
        newlines(a + b) == newlines(a) + newlines(b),
    decreases b.len(),
{
    if b.len() == 0 {
        assert(a + b =~= a);
    } else {
        assert((a + b).drop_last() =~= a + b.drop_last());
        lemma_newlines_add(a, b.drop_last());
    }
}

proof fn lemma_newlines_none(v: Seq<u8>)
    requires
        !v.contains(NEWLINE),
    ensures
        newlines(v) == 0,
    decreases v.len(),
{
    if v.len() > 0 {
        assert(v.drop_last().len() < v.len());
        assert forall|k: int| 0 <= k < v.drop_last().len() implies v.drop_last()[k] != NEWLINE by {
            assert(v.drop_last()[k] == v[k]);
        }
        lemma_newlines_none(v.drop_last());
        assert(v.last() == v[v.len() - 1]);
    }
}

/// A row appended with its newline adds one newline, when it holds none.
proof fn lemma_row_appended(cur: Seq<u8>, v: Seq<u8>)
    requires
        !v.contains(NEWLINE),
    ensures
        newlines(cur + v.push(NEWLINE)) == newlines(cur) + 1,
        (cur + v.push(NEWLINE)).last() == NEWLINE,
{
    lemma_newlines_none(v);
    lemma_newlines_add(cur, v.push(NEWLINE));
    assert(v.push(NEWLINE).drop_last() =~= v);
}

impl Batch {
    /// The batch as parser input.
    pub fn input(&self) -> (b: &[u8])
        ensures
            b@ == self.bytes@,
    {
        self.bytes.as_slice()
    }

    /// An empty batch.
    pub fn new() -> (b: Batch)
        ensures
            b.bytes@.len() == 0,
            b.rows == 0,
            forall|bb: int| #[trigger] batch_ok(b, bb),
    {
        Batch { bytes: Vec::new(), rows: 0 }
    }
}

impl Corpus {
    /// An empty corpus.
    pub fn new() -> (c: Corpus)
        ensures
            c.batches@.len() == 0,
            c.file_rows == 0,
            c.null_rows == 0,
            c.empty_rows == 0,
            c.newline_rows == 0,
            c.max_row_bytes == 0,
    {
        Corpus {
            batches: Vec::new(),
            file_rows: 0,
            null_rows: 0,
            empty_rows: 0,
            newline_rows: 0,
            max_row_bytes: 0,
        }
    }

    /// Total rows over all batches.
    pub fn rows(&self) -> (n: usize)
        requires
            rows_sum(self.batches@) <= usize::MAX,
        ensures
            n == rows_sum(self.batches@),
    {
        let mut total: usize = 0;
        let mut i: usize = 0;
        while i < self.batches.len()
            invariant
                0 <= i <= self.batches@.len(),
                rows_sum(self.batches@) <= usize::MAX,
                total == rows_sum(self.batches@.take(i as int)),
            decreases self.batches@.len() - i,
        {
            proof {
                lemma_rows_sum_prefix(self.batches@, i as int + 1);
                assert(self.batches@.take(i + 1).drop_last() == self.batches@.take(i as int));
            }
            total = total + self.batches[i].rows;
            i += 1;
        }
        assert(self.batches@.take(i as int) == self.batches@);
        total
    }

    /// Total bytes over all batches.
    pub fn bytes(&self) -> (n: usize)
        requires
            bytes_sum(self.batches@) <= usize::MAX,
        ensures
            n == bytes_sum(self.batches@),
    {
        let mut total: usize = 0;
        let mut i: usize = 0;
        while i < self.batches.len()
            invariant
                0 <= i <= self.batches@.len(),
                bytes_sum(self.batches@) <= usize::MAX,
                total == bytes_sum(self.batches@.take(i as int)),
            decreases self.batches@.len() - i,
        {
            proof {
                lemma_bytes_sum_prefix(self.batches@, i as int + 1);
                assert(self.batches@.take(i + 1).drop_last() == self.batches@.take(i as int));
            }
            total = total + self.batches[i].bytes.len();
            i += 1;
        }
        assert(self.batches@.take(i as int) == self.batches@);
        total
    }

    /// Takes in one row of the file: `None` for a null. Null, empty and
    /// multi-line rows are only counted; any other row is appended to `cur`
    /// with a trailing newline, after `cur` is moved into the batches when
    /// the row would take a non-empty `cur` past `batch_bytes`.
    pub fn push_row(&mut self, cur: &mut Batch, value: Option<&str>, batch_bytes: usize)
        requires
            old(self).file_rows < usize::MAX,
            old(self).null_rows < usize::MAX,
            old(self).empty_rows < usize::MAX,
            old(self).newline_rows < usize::MAX,
            old(cur).rows < usize::MAX,
            value matches Some(s) ==> old(cur).bytes@.len() + s.spec_bytes().len() + 1
                <= usize::MAX,
        ensures
            final(self).file_rows == old(self).file_rows + 1,
            final(self).null_rows == old(self).null_rows + (if value is None {
                1int
            } else {
                0
            }),
            final(self).empty_rows == old(self).empty_rows + (if value matches Some(s)
                && s.spec_bytes().len() == 0 {
                1int
            } else {
                0
            }),
            final(self).newline_rows == old(self).newline_rows + (if value matches Some(s)
                && s.spec_bytes().len() > 0 && s.spec_bytes().contains(NEWLINE) {
                1int
            } else {
                0
            }),
            match value {
                Some(s) if row_accepted(s.spec_bytes()) => {
                    let v = s.spec_bytes();
                    &&& final(self).max_row_bytes == if v.len() > old(self).max_row_bytes {
                        v.len() as int
                    } else {
                        old(self).max_row_bytes as int
                    }
                    &&& if closes_batch(
                        old(cur).bytes@.len() as int,
                        v.len() as int,
                        batch_bytes as int,
                    ) {
                        &&& final(self).batches@ == old(self).batches@.push(*old(cur))
                        &&& final(cur).bytes@ == v.push(NEWLINE)
                        &&& final(cur).rows == 1
                    } else {
                        &&& final(self).batches@ == old(self).batches@
                        &&& final(cur).bytes@ == old(cur).bytes@ + v.push(NEWLINE)
                        &&& final(cur).rows == old(cur).rows + 1
                    }
                },
                _ => {
                    &&& final(self).batches@ == old(self).batches@
                    &&& final(self).max_row_bytes == old(self).max_row_bytes
                    &&& final(cur).bytes@ == old(cur).bytes@
                    &&& final(cur).rows == old(cur).rows
                },
            },
            batch_ok(*old(cur), batch_bytes as int) && batches_ok(
                old(self).batches@,
                batch_bytes as int,
            ) ==> batch_ok(*final(cur), batch_bytes as int) && batches_ok(
                final(self).batches@,
                batch_bytes as int,
            ),
    {
        self.file_rows += 1;
        let s = match value {
            None => {
                self.null_rows += 1;
                return;
            },
            Some(s) => s,
        };
        let v = s.as_bytes();
        if v.len() == 0 {
            self.empty_rows += 1;
            return;
        }
        if contains_byte(v, NEWLINE) {
            self.newline_rows += 1;
            return;
        }
        if cur.bytes.len() != 0 && cur.bytes.len() + v.len() + 1 > batch_bytes {
            let mut full = Batch::new();
            std::mem::swap(cur, &mut full);
            self.batches.push(full);
        }
        let ghost before = cur.bytes@;
        push_all(&mut cur.bytes, v);
        cur.bytes.push(NEWLINE);
        cur.rows += 1;
        proof {
            assert(cur.bytes@ =~= before + v@.push(NEWLINE));
            lemma_row_appended(before, v@);
            if before.len() == 0 {
                assert(newlines(before) == 0);
            }
        }
        if v.len() > self.max_row_bytes {
            self.max_row_bytes = v.len();
        }
    }

    /// Whether `max_rows` rows are reached, counting the batches and the
    /// open batch `cur`; never with no limit.
    pub fn reached(&self, cur: &Batch, max_rows: Option<usize>) -> (b: bool)
        requires
            rows_sum(self.batches@) + cur.rows <= usize::MAX,
        ensures
            b == (max_rows matches Some(m) && rows_sum(self.batches@) + cur.rows >= m),
    {
        match max_rows {
            None => false,
            Some(m) => {
                proof {
                    lemma_rows_sum_bound(self.batches@);
                }
                self.rows() + cur.rows >= m
            },
        }
    }

    /// Moves a non-empty open batch into the batches.
    pub fn finish(&mut self, cur: Batch)
        ensures
            final(self).batches@ == if cur.rows > 0 {
                old(self).batches@.push(cur)
            } else {
                old(self).batches@
            },
            final(self).file_rows == old(self).file_rows,
            final(self).null_rows == old(self).null_rows,
            final(self).empty_rows == old(self).empty_rows,
            final(self).newline_rows == old(self).newline_rows,
            final(self).max_row_bytes == old(self).max_row_bytes,
            forall|bb: int|
                batch_ok(cur, bb) && #[trigger] batches_ok(old(self).batches@, bb) ==> batches_ok(
                    final(self).batches@,
                    bb,
                ),
    {
        if cur.rows > 0 {
            self.batches.push(cur);
        }
    }
}

/// Whether `v` holds the byte `b`.
fn contains_byte(v: &[u8], b: u8) -> (r: bool)
    ensures
        r == v@.contains(b),
{
    let mut i: usize = 0;
    while i < v.len()
        invariant
            0 <= i <= v@.len(),
            forall|k: int| 0 <= k < i ==> v@[k] != b,
        decreases v@.len() - i,
    {
        if v[i] == b {
            assert(v@[i as int] == b);
            return true;
        }
        i += 1;
    }
    false
}

proof fn lemma_rows_sum_prefix(b: Seq<Batch>, i: int)
    requires
        0 < i <= b.len(),
    ensures
        rows_sum(b.take(i)) == rows_sum(b.take(i - 1)) + b[i - 1].rows,
        rows_sum(b.take(i)) <= rows_sum(b),
    decreases b.len() - i,
{
    assert(b.take(i).drop_last() == b.take(i - 1));
    if i < b.len() {
        lemma_rows_sum_prefix(b, i + 1);
    } else {
        assert(b.take(i) == b);
    }
}

proof fn lemma_bytes_sum_prefix(b: Seq<Batch>, i: int)
    requires
        0 < i <= b.len(),
    ensures
        bytes_sum(b.take(i)) == bytes_sum(b.take(i - 1)) + b[i - 1].bytes@.len(),
        bytes_sum(b.take(i)) <= bytes_sum(b),
    decreases b.len() - i,
{
    assert(b.take(i).drop_last() == b.take(i - 1));
    if i < b.len() {
        lemma_bytes_sum_prefix(b, i + 1);
    } else {
        assert(b.take(i) == b);
    }
}

proof fn lemma_rows_sum_bound(b: Seq<Batch>)
    ensures
        rows_sum(b) >= 0,
    decreases b.len(),
{
    if b.len() > 0 {
        lemma_rows_sum_bound(b.drop_last());
    }
}

} // verus!
