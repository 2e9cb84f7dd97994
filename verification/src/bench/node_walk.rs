//! The checksum of a value walked with `Node` navigation, and the law that
//! ties it to `HashVisitor`: fed the events of `Document::visit`, the
//! visitor computes the same checksum, one row per top-level value.

use vstd::prelude::*;
use vstd::utf8::valid_utf8;
use vstd::wrapping::u64_specs::wrapping_add;

use super::walk::{
    close_hash, event_fed, events_fed, fed_rows, fed_state, hash_bytes_spec, lemma_events_fed_concat,
    lemma_rows_add_up, mix_spec, row_sum, Frame, TAG_ARR, TAG_BOOL, TAG_NULL, TAG_STR,
};
use crate::tape::document::{spec_next, Document, Kind, NodeRepr};
use crate::tape::events::lemma_items_events_add;
use crate::tape::text::trim_ws;
use crate::tape::visit::scalar_event;
use crate::tape::{Error, SpecEvent};

verus! {

/// The checksum of the value `r` walked with navigation: `null`, a boolean
/// and a string by their tags, a number by `num` on its text; an array
/// mixes its elements' checksums in order into `TAG_ARR`, then its length;
/// an object adds up the mix of each key's hash with its value's checksum
/// (in any order), then mixes in its tag and length. `fuel` bounds the
/// nesting.
pub open spec fn node_checksum(
    doc: &Document,
    r: NodeRepr,
    fuel: nat,
    num: spec_fn(Seq<u8>) -> u64,
) -> u64
    decreases fuel, 0int,
{
    if fuel == 0 {
        0
    } else {
        match r {
            NodeRepr::Container { open, close, kind } => if kind == Kind::Object {
                close_hash(
                    members_frame(
                        doc,
                        doc.spec_object_items(r)->Some_0,
                        Frame { obj: true, acc: 0, len: 0, key: 0 },
                        (fuel - 1) as nat,
                        num,
                    ),
                )
            } else {
                close_hash(
                    items_frame(
                        doc,
                        doc.spec_children(open as int, close as int),
                        Frame { obj: false, acc: TAG_ARR, len: 0, key: 0 },
                        (fuel - 1) as nat,
                        num,
                    ),
                )
            },
            NodeRepr::Scalar { .. } => match doc.spec_kind(r) {
                Kind::Null => TAG_NULL,
                Kind::Bool => mix_spec(
                    TAG_BOOL,
                    if doc.spec_as_bool(r) == Ok::<bool, Error>(true) {
                        1
                    } else {
                        0
                    },
                ),
                Kind::String => mix_spec(TAG_STR, hash_bytes_spec(doc.spec_as_str(r)->Ok_0)),
                _ => num(doc.spec_raw(r)),
            },
        }
    }
}

/// An array's running combination after the elements `rs`: each element's
/// checksum mixed in, and counted.
pub open spec fn items_frame(
    doc: &Document,
    rs: Seq<NodeRepr>,
    f: Frame,
    fuel: nat,
    num: spec_fn(Seq<u8>) -> u64,
) -> Frame
    decreases fuel, rs.len() + 1,
{
    if rs.len() == 0 {
        f
    } else {
        let h = node_checksum(doc, rs[0], fuel, num);
        items_frame(
            doc,
            rs.drop_first(),
            Frame { acc: mix_spec(f.acc, h), len: (f.len + 1) as u64, ..f },
            fuel,
            num,
        )
    }
}

/// An object's running combination after the (key, value) members `ms`:
/// each key's hash mixed with its value's checksum and added, and counted;
/// `key` holds the last key's hash.
pub open spec fn members_frame(
    doc: &Document,
    ms: Seq<(Seq<u8>, NodeRepr)>,
    f: Frame,
    fuel: nat,
    num: spec_fn(Seq<u8>) -> u64,
) -> Frame
    decreases fuel, ms.len() + 1,
{
    if ms.len() == 0 {
        f
    } else {
        let k = hash_bytes_spec(ms[0].0);
        let h = node_checksum(doc, ms[0].1, fuel, num);
        members_frame(
            doc,
            ms.drop_first(),
            Frame { acc: wrapping_add(f.acc, mix_spec(k, h)), len: (f.len + 1) as u64, key: k, ..f },
            fuel,
            num,
        )
    }
}

/// Whether navigation can walk `r` within `fuel` levels: each scalar
/// reached reads as a value.
pub open spec fn walkable(doc: &Document, r: NodeRepr, fuel: nat) -> bool
    decreases fuel, 0int,
{
    if fuel == 0 {
        false
    } else {
        match r {
            NodeRepr::Scalar { lo, hi } => scalar_event(
                doc.spec_scalar_bytes(lo as int, hi as int),
            ) is Ok,
            NodeRepr::Container { open, close, kind } => if kind == Kind::Object {
                members_walkable(doc, doc.spec_pairs(open as int, close as int), (fuel - 1) as nat)
            } else {
                items_walkable(doc, doc.spec_children(open as int, close as int), (fuel - 1) as nat)
            },
        }
    }
}

/// Whether each of the values `rs` is walkable.
pub open spec fn items_walkable(doc: &Document, rs: Seq<NodeRepr>, fuel: nat) -> bool
    decreases fuel, rs.len() + 1,
{
    rs.len() == 0 || (walkable(doc, rs[0], fuel) && items_walkable(doc, rs.drop_first(), fuel))
}

/// Whether each member value of `ms` is walkable.
pub open spec fn members_walkable(doc: &Document, ms: Seq<(usize, NodeRepr)>, fuel: nat) -> bool
    decreases fuel, ms.len() + 1,
{
    ms.len() == 0 || (walkable(doc, ms[0].1, fuel) && members_walkable(
        doc,
        ms.drop_first(),
        fuel,
    ))
}

/// The members `ms` with each key entry read as its key.
pub open spec fn keyed(doc: &Document, ms: Seq<(usize, NodeRepr)>) -> Seq<(Seq<u8>, NodeRepr)> {
    ms.map_values(|p: (usize, NodeRepr)| (doc.spec_key_bytes(p.0 as int), p.1))
}

/// One event: the run over it is its step.
proof fn lemma_fed_one(s: (Seq<Frame>, u64, u64), e: SpecEvent, num: spec_fn(Seq<u8>) -> u64)
    ensures
        events_fed(s, seq![e], num) == event_fed(s, e, num),
{
    assert(seq![e].drop_last() =~= Seq::<SpecEvent>::empty());
    assert(seq![e].last() == e);
    assert(events_fed(s, Seq::<SpecEvent>::empty(), num) == s);
}

/// Running the visitor over a walkable value's events, from any state,
/// takes in the value's navigation checksum.
proof fn lemma_node_fed(
    doc: &Document,
    r: NodeRepr,
    fuel: nat,
    num: spec_fn(Seq<u8>) -> u64,
    st: Seq<Frame>,
    rows: u64,
    hash: u64,
)
    requires
        walkable(doc, r, fuel),
    ensures
        events_fed((st, rows, hash), doc.node_events(r, fuel), num) == fed_state(
            st,
            rows,
            hash,
            node_checksum(doc, r, fuel, num),
        ),
    decreases fuel, 0int,
{
    let s = (st, rows, hash);
    match r {
        NodeRepr::Scalar { lo, hi } => {
            let raw = doc.spec_scalar_bytes(lo as int, hi as int);
            let e = scalar_event(raw)->Ok_0;
            assert(doc.node_events(r, fuel) == seq![e]);
            lemma_fed_one(s, e, num);
        },
        NodeRepr::Container { open, close, kind } => {
            let f1 = (fuel - 1) as nat;
            if kind == Kind::Object {
                let ms = doc.spec_pairs(open as int, close as int);
                let f0 = Frame { obj: true, acc: 0, len: 0, key: 0 };
                let inner = doc.members_events(ms, f1);
                let b = seq![SpecEvent::BeginObject];
                let c = seq![SpecEvent::EndObject];
                assert(doc.node_events(r, fuel) == b + inner + c);
                lemma_events_fed_concat(s, b + inner, c, num);
                lemma_events_fed_concat(s, b, inner, num);
                lemma_fed_one(s, SpecEvent::BeginObject, num);
                lemma_members_fed(doc, ms, f1, num, st, f0, rows, hash);
                let fin = members_frame(doc, keyed(doc, ms), f0, f1, num);
                lemma_fed_one((st.push(fin), rows, hash), SpecEvent::EndObject, num);
                assert(doc.spec_object_items(r)->Some_0 == keyed(doc, ms));
                assert(st.push(fin).drop_last() =~= st);
                assert(st.push(fin).last() == fin);
            } else {
                let rs = doc.spec_children(open as int, close as int);
                let f0 = Frame { obj: false, acc: TAG_ARR, len: 0, key: 0 };
                let inner = doc.items_events(rs, f1);
                let b = seq![SpecEvent::BeginArray];
                let c = seq![SpecEvent::EndArray];
                assert(doc.node_events(r, fuel) == b + inner + c);
                lemma_events_fed_concat(s, b + inner, c, num);
                lemma_events_fed_concat(s, b, inner, num);
                lemma_fed_one(s, SpecEvent::BeginArray, num);
                lemma_items_fed(doc, rs, f1, num, st, f0, rows, hash);
                let fin = items_frame(doc, rs, f0, f1, num);
                lemma_fed_one((st.push(fin), rows, hash), SpecEvent::EndArray, num);
                assert(st.push(fin).drop_last() =~= st);
                assert(st.push(fin).last() == fin);
            }
        },
    }
}

/// Running the visitor over walkable elements' events, inside an open
/// array, mixes their checksums into the array's frame.
proof fn lemma_items_fed(
    doc: &Document,
    rs: Seq<NodeRepr>,
    fuel: nat,
    num: spec_fn(Seq<u8>) -> u64,
    st: Seq<Frame>,
    f: Frame,
    rows: u64,
    hash: u64,
)
    requires
        items_walkable(doc, rs, fuel),
        !f.obj,
    ensures
        events_fed((st.push(f), rows, hash), doc.items_events(rs, fuel), num) == (
            st.push(items_frame(doc, rs, f, fuel, num)),
            rows,
            hash,
        ),
    decreases fuel, rs.len() + 1,
{
    if rs.len() == 0 {
        assert(doc.items_events(rs, fuel) == Seq::<SpecEvent>::empty());
    } else {
        let s = (st.push(f), rows, hash);
        let a = doc.node_events(rs[0], fuel);
        let rest = doc.items_events(rs.drop_first(), fuel);
        lemma_events_fed_concat(s, a, rest, num);
        lemma_node_fed(doc, rs[0], fuel, num, st.push(f), rows, hash);
        let h = node_checksum(doc, rs[0], fuel, num);
        let nf = Frame { acc: mix_spec(f.acc, h), len: (f.len + 1) as u64, ..f };
        assert(st.push(f).drop_last() =~= st);
        assert(events_fed(s, a, num) == (st.push(nf), rows, hash));
        lemma_items_fed(doc, rs.drop_first(), fuel, num, st, nf, rows, hash);
    }
}

/// Running the visitor over walkable members' events (each key, then its
/// value), inside an open object, adds them into the object's frame.
proof fn lemma_members_fed(
    doc: &Document,
    ms: Seq<(usize, NodeRepr)>,
    fuel: nat,
    num: spec_fn(Seq<u8>) -> u64,
    st: Seq<Frame>,
    f: Frame,
    rows: u64,
    hash: u64,
)
    requires
        members_walkable(doc, ms, fuel),
        f.obj,
    ensures
        events_fed((st.push(f), rows, hash), doc.members_events(ms, fuel), num) == (
            st.push(members_frame(doc, keyed(doc, ms), f, fuel, num)),
            rows,
            hash,
        ),
    decreases fuel, ms.len() + 1,
{
    if ms.len() == 0 {
        assert(doc.members_events(ms, fuel) == Seq::<SpecEvent>::empty());
        assert(keyed(doc, ms) =~= Seq::<(Seq<u8>, NodeRepr)>::empty());
    } else {
        let s = (st.push(f), rows, hash);
        let kb = doc.spec_key_bytes(ms[0].0 as int);
        let ke = seq![SpecEvent::Key(kb)];
        let a = doc.node_events(ms[0].1, fuel);
        let rest = doc.members_events(ms.drop_first(), fuel);
        assert(doc.members_events(ms, fuel) == ke + a + rest);
        lemma_events_fed_concat(s, ke + a, rest, num);
        lemma_events_fed_concat(s, ke, a, num);
        lemma_fed_one(s, SpecEvent::Key(kb), num);
        let k = hash_bytes_spec(kb);
        let fk = Frame { key: k, ..f };
        assert(st.push(f).drop_last() =~= st);
        assert(st.push(f).last() == f);
        assert(events_fed(s, ke, num) == (st.push(fk), rows, hash));
        lemma_node_fed(doc, ms[0].1, fuel, num, st.push(fk), rows, hash);
        let h = node_checksum(doc, ms[0].1, fuel, num);
        let nf = Frame { acc: wrapping_add(fk.acc, mix_spec(k, h)), len: (fk.len + 1) as u64, ..fk };
        assert(st.push(fk).drop_last() =~= st);
        lemma_members_fed(doc, ms.drop_first(), fuel, num, st, nf, rows, hash);
        let km = keyed(doc, ms);
        assert(km[0] == (kb, ms[0].1));
        assert(km.drop_first() =~= keyed(doc, ms.drop_first()));
    }
}

/// A well-shaped value is walkable.
proof fn lemma_shaped_walkable(doc: &Document, r: NodeRepr, fuel: nat)
    requires
        doc.shaped_node(r, fuel),
    ensures
        walkable(doc, r, fuel),
    decreases fuel, 0int,
{
    if let NodeRepr::Container { open, close, kind } = r {
        let f1 = (fuel - 1) as nat;
        if doc.spec_empty_container(open as int, close as int) {
            assert(doc.spec_pairs(open as int, close as int).len() == 0);
            assert(doc.spec_children(open as int, close as int).len() == 0);
        } else if kind == Kind::Object {
            lemma_members_walkable(doc, open as int, close as int, f1);
        } else {
            lemma_items_walkable(doc, open as int, close as int, f1);
        }
    }
}

/// Well-shaped values from `delim` up to `close` are walkable.
proof fn lemma_items_walkable(doc: &Document, delim: int, close: int, fuel: nat)
    requires
        doc.shaped_items(delim, close, fuel),
    ensures
        items_walkable(doc, doc.spec_walk(delim, close), fuel),
    decreases fuel, close - delim + 1,
{
    let r = doc.spec_read_value(delim);
    let nd = spec_next(r);
    lemma_shaped_walkable(doc, r, fuel);
    let w = doc.spec_walk(delim, close);
    if nd == close {
        assert(doc.spec_walk(nd, close) =~= Seq::<NodeRepr>::empty());
        assert(w == seq![r] + doc.spec_walk(nd, close));
        assert(w.drop_first() =~= Seq::<NodeRepr>::empty());
        assert(items_walkable(doc, w.drop_first(), fuel));
    } else {
        lemma_items_walkable(doc, nd, close, fuel);
        assert(w == seq![r] + doc.spec_walk(nd, close));
        assert(w.drop_first() =~= doc.spec_walk(nd, close));
    }
    assert(w[0] == r);
}

/// Well-shaped members from `delim` up to `close` have walkable values.
proof fn lemma_members_walkable(doc: &Document, delim: int, close: int, fuel: nat)
    requires
        doc.shaped_members(delim, close, fuel),
    ensures
        members_walkable(doc, doc.spec_obj_walk(delim, close), fuel),
    decreases fuel, close - delim + 1,
{
    let r = doc.spec_read_value(delim + 1);
    let nd = spec_next(r);
    lemma_shaped_walkable(doc, r, fuel);
    let w = doc.spec_obj_walk(delim, close);
    let head = seq![(delim as usize, r)];
    if nd == close {
        assert(doc.spec_obj_walk(nd, close) =~= Seq::<(usize, NodeRepr)>::empty());
        assert(w == head + doc.spec_obj_walk(nd, close));
        assert(w.drop_first() =~= Seq::<(usize, NodeRepr)>::empty());
        assert(members_walkable(doc, w.drop_first(), fuel));
    } else {
        lemma_members_walkable(doc, nd, close, fuel);
        assert(w == head + doc.spec_obj_walk(nd, close));
        assert(w.drop_first() =~= doc.spec_obj_walk(nd, close));
    }
    assert(w[0] == (delim as usize, r));
}

/// Every value of a well-shaped top level from `delim` on that is not
/// blank is walkable.
proof fn lemma_top_walkable(doc: &Document, delim: int, fuel: nat)
    requires
        doc.shaped_top(delim, fuel),
    ensures
        forall|i: int|
            0 <= i < doc.spec_walk(delim, doc.total() - 1).len() && !doc.spec_blank(
                #[trigger] doc.spec_walk(delim, doc.total() - 1)[i],
            ) ==> walkable(doc, doc.spec_walk(delim, doc.total() - 1)[i], fuel),
    decreases doc.total() - delim,
{
    let end = doc.total() - 1;
    let r = doc.spec_read_value(delim);
    let nd = spec_next(r);
    if !doc.spec_blank(r) {
        lemma_shaped_walkable(doc, r, fuel);
    }
    let w = doc.spec_walk(delim, end);
    if nd == end {
        assert(doc.spec_walk(nd, end) =~= Seq::<NodeRepr>::empty());
        assert(w == seq![r] + doc.spec_walk(nd, end));
        assert(w =~= seq![r]);
    } else {
        lemma_top_walkable(doc, nd, fuel);
        let rest = doc.spec_walk(nd, end);
        assert(w == seq![r] + rest);
        assert forall|i: int| 0 <= i < w.len() && !doc.spec_blank(#[trigger] w[i]) implies walkable(
            doc,
            w[i],
            fuel,
        ) by {
            if i > 0 {
                assert(w[i] == rest[i - 1]);
            }
        }
    }
}

/// What `drop_blanks` keeps are the elements that are not blank.
proof fn lemma_drop_blanks_kept(doc: &Document, rs: Seq<NodeRepr>)
    ensures
        forall|j: int|
            0 <= j < doc.drop_blanks(rs).len() ==> exists|i: int|
                0 <= i < rs.len() && rs[i] == #[trigger] doc.drop_blanks(rs)[j] && !doc.spec_blank(
                    rs[i],
                ),
    decreases rs.len(),
{
    if rs.len() > 0 {
        let pre = rs.drop_last();
        lemma_drop_blanks_kept(doc, pre);
        let d = doc.drop_blanks(rs);
        assert forall|j: int| 0 <= j < d.len() implies exists|i: int|
            0 <= i < rs.len() && rs[i] == #[trigger] d[j] && !doc.spec_blank(rs[i]) by {
            if j < doc.drop_blanks(pre).len() {
                let i = choose|i: int|
                    0 <= i < pre.len() && pre[i] == doc.drop_blanks(pre)[j] && !doc.spec_blank(
                        pre[i],
                    );
                assert(rs[i] == pre[i]);
            } else {
                assert(d[j] == rs.last());
                assert(rs[rs.len() - 1] == rs.last());
            }
        }
    }
}

/// The top-level values of a well-formed, well-shaped document are
/// walkable.
proof fn lemma_lines_walkable(doc: &Document, fuel: nat)
    requires
        doc.wf(),
        doc.shaped(fuel),
    ensures
        forall|i: int|
            0 <= i < doc.spec_lines().len() ==> walkable(doc, #[trigger] doc.spec_lines()[i], fuel),
{
    let n = doc.total();
    if n > 2 {
        let w = doc.spec_walk(0, n - 1);
        assert(!doc.spec_empty_container(0, n - 1));
        assert(doc.spec_children(0, n - 1) == w);
        lemma_top_walkable(doc, 0, fuel);
        lemma_drop_blanks_kept(doc, w);
        assert forall|j: int| 0 <= j < doc.spec_lines().len() implies walkable(
            doc,
            #[trigger] doc.spec_lines()[j],
            fuel,
        ) by {
            let i = choose|i: int|
                0 <= i < w.len() && w[i] == doc.drop_blanks(w)[j] && !doc.spec_blank(w[i]);
            assert(!doc.spec_blank(w[i]));
        }
    } else {
        let input = doc.input@;
        let raw = trim_ws(input);
        assert(input.subrange(0, input.len() as int) =~= input);
        doc.lemma_root_interval();
        assert(doc.spec_scalar_bytes(0, 1) == raw);
        let r = doc.spec_read_value(0);
        assert(doc.spec_walk(1, 1) =~= Seq::<NodeRepr>::empty());
        if raw.len() > 0 {
            assert(r == NodeRepr::Scalar { lo: 0, hi: 1 });
            assert(doc.spec_children(0, 1) =~= seq![r]);
            assert(seq![r].drop_last() =~= Seq::<NodeRepr>::empty());
            assert(doc.drop_blanks(Seq::<NodeRepr>::empty()) == Seq::<NodeRepr>::empty());
            assert(doc.spec_lines() =~= seq![r]);
        } else {
            assert(doc.drop_blanks(Seq::<NodeRepr>::empty()) == Seq::<NodeRepr>::empty());
            assert(doc.spec_lines() =~= Seq::<NodeRepr>::empty());
        }
    }
}

/// The navigation checksums of the values `ls`, in order.
pub open spec fn checksums(
    doc: &Document,
    ls: Seq<NodeRepr>,
    fuel: nat,
    num: spec_fn(Seq<u8>) -> u64,
) -> Seq<u64> {
    ls.map_values(|r: NodeRepr| node_checksum(doc, r, fuel, num))
}

/// Running a fresh visitor over the events of walkable top-level values
/// takes in their checksums one after another, as rows.
proof fn lemma_lines_fed(doc: &Document, ls: Seq<NodeRepr>, fuel: nat, num: spec_fn(Seq<u8>) -> u64)
    requires
        forall|i: int| 0 <= i < ls.len() ==> walkable(doc, #[trigger] ls[i], fuel),
    ensures
        events_fed((Seq::empty(), 0, 0), doc.items_events(ls, fuel), num) == fed_rows(
            0,
            0,
            checksums(doc, ls, fuel, num),
        ),
    decreases ls.len(),
{
    let s0 = (Seq::<Frame>::empty(), 0u64, 0u64);
    let hs = checksums(doc, ls, fuel, num);
    if ls.len() == 0 {
        assert(doc.items_events(ls, fuel) == Seq::<SpecEvent>::empty());
        assert(hs.len() == 0);
    } else {
        let pre = ls.drop_last();
        let last = ls.last();
        lemma_lines_fed(doc, pre, fuel, num);
        assert(ls =~= pre + seq![last]);
        lemma_items_events_add(doc, pre, seq![last], fuel);
        assert(seq![last].drop_first() =~= Seq::<NodeRepr>::empty());
        assert(seq![last][0] == last);
        assert(doc.items_events(Seq::<NodeRepr>::empty(), fuel) == Seq::<SpecEvent>::empty());
        assert(doc.items_events(seq![last], fuel) =~= doc.node_events(last, fuel));
        lemma_events_fed_concat(s0, doc.items_events(pre, fuel), doc.node_events(last, fuel), num);
        let p = fed_rows(0, 0, checksums(doc, pre, fuel, num));
        assert(ls[ls.len() - 1] == last);
        lemma_node_fed(doc, last, fuel, num, p.0, p.1, p.2);
        assert(hs.drop_last() =~= checksums(doc, pre, fuel, num));
    }
}

/// `HashVisitor`, fed the events of `Document::visit`, computes the same
/// checksum as walking the document's top-level values with `Node`
/// navigation: one row per top-level value, and the row checksums added.
/// This holds on every well-formed, valid UTF-8 document whose values are
/// well shaped, for whatever checksum `num` gives numbers.
pub proof fn lemma_visitor_matches_node_walk(doc: &Document, fuel: nat, num: spec_fn(Seq<u8>) -> u64)
    requires
        doc.wf(),
        valid_utf8(doc.input@),
        doc.shaped(fuel),
    ensures
        doc.spec_visit().1 is Ok,
        events_fed((Seq::empty(), 0, 0), doc.spec_visit().0, num) == fed_rows(
            0,
            0,
            checksums(doc, doc.spec_lines(), fuel, num),
        ),
        doc.spec_lines().len() <= u64::MAX ==> events_fed(
            (Seq::empty(), 0, 0),
            doc.spec_visit().0,
            num,
        ) == (
            Seq::<Frame>::empty(),
            doc.spec_lines().len() as u64,
            row_sum(checksums(doc, doc.spec_lines(), fuel, num)),
        ),
{
    doc.lemma_visit_matches_navigation(fuel);
    lemma_lines_walkable(doc, fuel);
    let ls = doc.spec_lines();
    lemma_lines_fed(doc, ls, fuel, num);
    if ls.len() <= u64::MAX {
        let hs = checksums(doc, ls, fuel, num);
        lemma_rows_add_up(0, 0, hs);
    }
}

} // verus!
