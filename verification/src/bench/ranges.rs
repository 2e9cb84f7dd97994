//! Visiting a document's row ranges separately, each with a fresh
//! `HashVisitor`, and adding up the results, as the parallel engines do.

use vstd::prelude::*;
use vstd::wrapping::u64_specs::wrapping_add;

use super::walk::{events_fed, lemma_visit_split_at_row_boundary, Frame};
use crate::tape::document::Document;
use crate::tape::visit::{
    lemma_visit_range_nested, lemma_visit_tiles, nesting, nesting_delta, ranges_events, tiles,
    well_nested,
};
use crate::tape::SpecEvent;

verus! {

/// Over well-nested events, the visitor's open containers grow and shrink
/// with the nesting.
proof fn lemma_fed_nesting(s: (Seq<Frame>, u64, u64), es: Seq<SpecEvent>, num: spec_fn(Seq<u8>) -> u64)
    requires
        well_nested(es),
    ensures
        events_fed(s, es, num).0.len() == s.0.len() + nesting(es),
    decreases es.len(),
{
    if es.len() > 0 {
        let pre = es.drop_last();
        lemma_fed_nesting(s, pre, num);
        let p = events_fed(s, pre, num);
        let e = es.last();
        match e {
            SpecEvent::EndObject | SpecEvent::EndArray => {
                assert(p.0.len() > 0);
                assert(p.0.drop_last().len() == p.0.len() - 1);
            },
            _ => {},
        }
        assert(nesting(es) == nesting(pre) + nesting_delta(e));
    }
}

/// Rows and hash of fresh visitors run over each range of `rs`, added up:
/// counts added, hashes added with wrapping.
pub open spec fn ranges_tally(doc: &Document, rs: Seq<(int, int)>, num: spec_fn(Seq<u8>) -> u64) -> (
    u64,
    u64,
)
    decreases rs.len(),
{
    if rs.len() == 0 {
        (0, 0)
    } else {
        let p = ranges_tally(doc, rs.drop_last(), num);
        let x = events_fed(
            (Seq::empty(), 0, 0),
            doc.spec_visit_range(rs.last().0, rs.last().1).0,
            num,
        );
        ((p.0 + x.1) as u64, wrapping_add(p.1, x.2))
    }
}

proof fn lemma_ranges_fed(doc: &Document, rs: Seq<(int, int)>, num: spec_fn(Seq<u8>) -> u64)
    requires
        forall|k: int| 0 <= k < rs.len() ==> (#[trigger] doc.spec_visit_range(rs[k].0, rs[k].1)).1 is Ok,
        ranges_events(doc, rs).len() <= u64::MAX,
    ensures
        events_fed((Seq::empty(), 0, 0), ranges_events(doc, rs), num) == (
            Seq::<Frame>::empty(),
            ranges_tally(doc, rs, num).0,
            ranges_tally(doc, rs, num).1,
        ),
    decreases rs.len(),
{
    let s0 = (Seq::<Frame>::empty(), 0u64, 0u64);
    if rs.len() == 0 {
        assert(ranges_events(doc, rs) == Seq::<SpecEvent>::empty());
    } else {
        let pre = rs.drop_last();
        assert forall|k: int| 0 <= k < pre.len() implies (#[trigger] doc.spec_visit_range(
            pre[k].0,
            pre[k].1,
        )).1 is Ok by {
            assert(pre[k] == rs[k]);
        }
        lemma_ranges_fed(doc, pre, num);
        let last = rs.last();
        assert(rs[rs.len() - 1] == last);
        let b = doc.spec_visit_range(last.0, last.1).0;
        let a = ranges_events(doc, pre);
        assert(ranges_events(doc, rs) == a + b);
        lemma_visit_split_at_row_boundary(a, b, num);
        lemma_visit_range_nested(doc, last.0, last.1);
        lemma_fed_nesting(s0, b, num);
        let y = events_fed(s0, b, num);
        assert(y.0 =~= Seq::<Frame>::empty());
    }
}

/// Visiting ranges that tile a document's entries (as `split_lines`
/// returns them), each with a fresh visitor, and adding up their rows and
/// hashes, gives what one visitor gives over the whole document's visit,
/// whenever each range's visit succeeds; the events can be at most
/// `u64::MAX`, since rows are counted in a `u64`.
pub proof fn lemma_split_visits_combine(doc: &Document, rs: Seq<(int, int)>, num: spec_fn(Seq<u8>) -> u64)
    requires
        doc.total() > 2,
        tiles(rs, doc.total() - 1),
        forall|k: int| 0 <= k < rs.len() ==> (#[trigger] doc.spec_visit_range(rs[k].0, rs[k].1)).1 is Ok,
        doc.spec_visit().0.len() <= u64::MAX,
    ensures
        events_fed((Seq::empty(), 0, 0), doc.spec_visit().0, num) == (
            Seq::<Frame>::empty(),
            ranges_tally(doc, rs, num).0,
            ranges_tally(doc, rs, num).1,
        ),
{
    lemma_visit_tiles(doc, rs);
    lemma_ranges_fed(doc, rs, num);
}

} // verus!
