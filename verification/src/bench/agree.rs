//! Comparing the per-row checksums that two engines produced over the same
//! corpus.

use vstd::prelude::*;

verus! {

/// Whether the two checksum lists disagree at row `i`: one list has the row
/// and the other does not, or both have it with different values.
pub open spec fn differs_at(a: Seq<u64>, b: Seq<u64>, i: int) -> bool {
    if i < a.len() && i < b.len() {
        a[i] != b[i]
    } else {
        i < a.len() || i < b.len()
    }
}

/// The rows below `n` at which the lists disagree, in increasing order.
pub open spec fn mismatches_below(a: Seq<u64>, b: Seq<u64>, n: int) -> Seq<usize>
    decreases n,
{
    if n <= 0 {
        Seq::empty()
    } else if differs_at(a, b, n - 1) {
        mismatches_below(a, b, n - 1).push((n - 1) as usize)
    } else {
        mismatches_below(a, b, n - 1)
    }
}

/// The longer of the two lengths: every row that either list has.
pub open spec fn rows_compared(a: Seq<u64>, b: Seq<u64>) -> int {
    if a.len() < b.len() {
        b.len() as int
    } else {
        a.len() as int
    }
}

/// The rows, in increasing order, at which `a` and `b` disagree, over every
/// row that either of them has.
pub fn mismatching_rows(a: &[u64], b: &[u64]) -> (m: Vec<usize>)
    ensures
        m@ == mismatches_below(a@, b@, rows_compared(a@, b@)),
{
    let n: usize = if a.len() < b.len() {
        b.len()
    } else {
        a.len()
    };
    let mut m: Vec<usize> = Vec::new();
    let mut i: usize = 0;
    while i < n
        invariant
            i <= n,
            n == rows_compared(a@, b@),
            m@ == mismatches_below(a@, b@, i as int),
        decreases n - i,
    {
        let differs = if i < a.len() && i < b.len() {
            a[i] != b[i]
        } else {
            true
        };
        if differs {
            m.push(i);
        }
        i += 1;
    }
    m
}

/// Every row that the result lists is one at which the lists disagree, and
/// every such row is listed, in increasing order.
pub proof fn lemma_mismatches_exact(a: Seq<u64>, b: Seq<u64>, n: int)
    requires
        0 <= n <= usize::MAX + 1,
    ensures
        forall|k: int|
            0 <= k < mismatches_below(a, b, n).len() ==> {
                let r = #[trigger] mismatches_below(a, b, n)[k] as int;
                0 <= r < n && differs_at(a, b, r)
            },
        forall|k: int, l: int|
            0 <= k < l < mismatches_below(a, b, n).len() ==> mismatches_below(a, b, n)[k]
                < mismatches_below(a, b, n)[l],
        forall|r: int|
            0 <= r < n && differs_at(a, b, r) ==> mismatches_below(a, b, n).contains(
                r as usize,
            ),
    decreases n,
{
    if n > 0 {
        lemma_mismatches_exact(a, b, n - 1);
        let prev = mismatches_below(a, b, n - 1);
        let cur = mismatches_below(a, b, n);
        assert forall|r: int| 0 <= r < n && differs_at(a, b, r) implies cur.contains(
            r as usize,
        ) by {
            if r < n - 1 {
                let k = choose|k: int| 0 <= k < prev.len() && prev[k] == r as usize;
                assert(cur[k] == r as usize);
            } else {
                assert(cur[prev.len() as int] == r as usize);
            }
        }
    }
}

/// Two lists agree at every row exactly when no row is listed as
/// mismatching.
pub proof fn lemma_no_mismatch_means_equal(a: Seq<u64>, b: Seq<u64>)
    requires
        rows_compared(a, b) <= usize::MAX + 1,
    ensures
        mismatches_below(a, b, rows_compared(a, b)).len() == 0 <==> a == b,
{
    let n = rows_compared(a, b);
    lemma_mismatches_exact(a, b, n);
    let m = mismatches_below(a, b, n);
    if m.len() == 0 {
        assert forall|r: int| 0 <= r < n implies !differs_at(a, b, r) by {
            if differs_at(a, b, r) {
                assert(m.contains(r as usize));
            }
        }
        if a.len() < b.len() {
            assert(differs_at(a, b, a.len() as int));
        } else if b.len() < a.len() {
            assert(differs_at(a, b, b.len() as int));
        }
        assert forall|r: int| 0 <= r < a.len() implies a[r] == b[r] by {
            assert(!differs_at(a, b, r));
        }
        assert(a =~= b);
    } else {
        if a == b {
            let r = m[0] as int;
            assert(differs_at(a, b, r));
        }
    }
}

} // verus!
