//! What a visit has to do with navigation: on documents whose values are
//! well shaped, `Document::visit` emits exactly the events of walking the
//! values with `Node` navigation.

use vstd::prelude::*;
use vstd::utf8::valid_utf8;

use super::document::{closer_byte, is_opener_byte, spec_next, Document, Kind, NodeRepr};
use super::error::Error;
use super::text::{lemma_ascii_cut, trim_ws, COLON, COMMA, LBRACE, LBRACKET, NEWLINE, RBRACE, RBRACKET};
use super::visit::{
    ceil_div, lemma_fold_narrower, lemma_fold_split, lemma_visit_tiles, ranges_events, scalar_event,
    split_fold, tiles, unquote_spec, with_scalar, SpecEvent, VisitState,
};

verus! {

impl Document {
    /// The events of walking the value `r` with navigation: a container's
    /// begin and end around its members' keys and values or its elements,
    /// a scalar's value; `fuel` bounds the nesting.
    pub open spec fn node_events(&self, r: NodeRepr, fuel: nat) -> Seq<SpecEvent>
        decreases fuel, 0int,
    {
        if fuel == 0 {
            Seq::empty()
        } else {
            match r {
                NodeRepr::Scalar { lo, hi } => match scalar_event(
                    self.spec_scalar_bytes(lo as int, hi as int),
                ) {
                    Ok(e) => seq![e],
                    Err(_) => Seq::empty(),
                },
                NodeRepr::Container { open, close, kind } => if kind == Kind::Object {
                    seq![SpecEvent::BeginObject] + self.members_events(
                        self.spec_pairs(open as int, close as int),
                        (fuel - 1) as nat,
                    ) + seq![SpecEvent::EndObject]
                } else {
                    seq![SpecEvent::BeginArray] + self.items_events(
                        self.spec_children(open as int, close as int),
                        (fuel - 1) as nat,
                    ) + seq![SpecEvent::EndArray]
                },
            }
        }
    }

    /// The events of the values `rs`, one after another.
    pub open spec fn items_events(&self, rs: Seq<NodeRepr>, fuel: nat) -> Seq<SpecEvent>
        decreases fuel, rs.len() + 1,
    {
        if rs.len() == 0 {
            Seq::empty()
        } else {
            self.node_events(rs[0], fuel) + self.items_events(rs.drop_first(), fuel)
        }
    }

    /// The events of the object members `ms` (key entry, value): each key,
    /// then its value's events.
    pub open spec fn members_events(&self, ms: Seq<(usize, NodeRepr)>, fuel: nat) -> Seq<SpecEvent>
        decreases fuel, ms.len() + 1,
    {
        if ms.len() == 0 {
            Seq::empty()
        } else {
            seq![SpecEvent::Key(self.spec_key_bytes(ms[0].0 as int))] + self.node_events(
                ms[0].1,
                fuel,
            ) + self.members_events(ms.drop_first(), fuel)
        }
    }

    /// Whether what follows the value `r` (read after a delimiter, inside a
    /// container closed at `close`) is a separator or that close, with
    /// nothing but whitespace between a container value and it.
    pub open spec fn separated(&self, r: NodeRepr, close: int) -> bool {
        let nd = spec_next(r);
        &&& (nd == close || (nd < close && self.spec_char(nd) == COMMA))
        &&& (r matches NodeRepr::Container { close: c, .. } ==> self.spec_scalar_bytes(
            c as int,
            nd,
        ).len() == 0)
    }

    /// Whether the value `r` is well shaped: a scalar with text that reads
    /// as a value, or a container that is empty or whose values (and, in
    /// an object, string keys each followed by a colon) are well shaped and
    /// separated by commas.
    pub open spec fn shaped_node(&self, r: NodeRepr, fuel: nat) -> bool
        decreases fuel, 0int,
    {
        if fuel == 0 {
            false
        } else {
            match r {
                NodeRepr::Scalar { lo, hi } => {
                    let raw = self.spec_scalar_bytes(lo as int, hi as int);
                    raw.len() > 0 && scalar_event(raw) is Ok
                },
                NodeRepr::Container { open, close, kind } => {
                    ||| self.spec_empty_container(open as int, close as int)
                    ||| (kind != Kind::Object && self.shaped_items(
                        open as int,
                        close as int,
                        (fuel - 1) as nat,
                    ))
                    ||| (kind == Kind::Object && self.shaped_members(
                        open as int,
                        close as int,
                        (fuel - 1) as nat,
                    ))
                },
            }
        }
    }

    /// Whether the values from the delimiter `delim` up to `close` are well
    /// shaped and separated.
    pub open spec fn shaped_items(&self, delim: int, close: int, fuel: nat) -> bool
        decreases fuel, close - delim + 1,
    {
        if delim >= close {
            false
        } else {
            let r = self.spec_read_value(delim);
            let nd = spec_next(r);
            &&& self.shaped_node(r, fuel)
            &&& self.separated(r, close)
            &&& (nd == close || (delim < nd < close && self.shaped_items(nd, close, fuel)))
        }
    }

    /// Whether the members from the delimiter `delim` up to `close` are
    /// well shaped: a string key, a colon, a well-shaped value, then a
    /// separator or the close.
    pub open spec fn shaped_members(&self, delim: int, close: int, fuel: nat) -> bool
        decreases fuel, close - delim + 1,
    {
        if delim + 1 >= close {
            false
        } else {
            let r = self.spec_read_value(delim + 1);
            let nd = spec_next(r);
            &&& self.spec_char(delim + 1) == COLON
            &&& unquote_spec(self.spec_scalar_bytes(delim, delim + 1)) is Ok
            &&& self.shaped_node(r, fuel)
            &&& self.separated(r, close)
            &&& (nd == close || (delim < nd < close && self.shaped_members(nd, close, fuel)))
        }
    }
}


/// The state after an entry is read: nothing since `prev`, so the
/// read position moves past the entry's byte.
pub open spec fn moved_past(st: VisitState, pos: int) -> VisitState {
    VisitState { prev: pos + 1, ..st }
}

impl Document {
    /// The 0-based byte of the real entry `k`.
    pub open spec fn pos(&self, k: int) -> int {
        self.tape.structural@[k] - 1
    }

    /// The text a visit reads before the real entry `k`, from `prev`.
    pub open spec fn raw_before(&self, prev: int, k: int) -> Seq<u8> {
        trim_ws(self.input@.subrange(prev, self.pos(k)))
    }

    /// Facts about a real entry of a well-formed document.
    proof fn lemma_entry(&self, k: int)
        requires
            self.wf(),
            0 < k < self.total() - 1,
        ensures
            0 <= self.pos(k) < self.input@.len(),
            self.spec_byte_pos(k) == self.pos(k),
            self.spec_char(k) == (if self.input@[self.pos(k)] == NEWLINE {
                COMMA
            } else {
                self.input@[self.pos(k)]
            }),
            0 < k + 1 < self.total() - 1 ==> self.pos(k) < self.pos(k + 1),
    {
    }

    /// The raw text between two consecutive real entries is what navigation
    /// reads as the scalar between them.
    proof fn lemma_raw_is_scalar(&self, k: int)
        requires
            self.wf(),
            0 < k,
            k + 1 < self.total() - 1,
        ensures
            self.raw_before(self.pos(k) + 1, k + 1) == self.spec_scalar_bytes(k, k + 1),
    {
        self.lemma_entry(k);
        self.lemma_entry(k + 1);
    }

    /// Reading a real entry within the region: an opener begins a
    /// container.
    proof fn lemma_step_open(&self, st: VisitState, k: int, re: int)
        requires
            self.wf(),
            0 < k < self.total() - 1,
            st.err is None,
            st.prev <= self.pos(k) < re,
            self.spec_char(k) == LBRACE || self.spec_char(k) == LBRACKET,
        ensures
            self.visit_step(st, self.tape.structural@[k], re) == (VisitState {
                events: st.events.push(
                    if self.spec_char(k) == LBRACE {
                        SpecEvent::BeginObject
                    } else {
                        SpecEvent::BeginArray
                    },
                ),
                depth: st.depth + 1,
                prev: self.pos(k) + 1,
                err: None,
            }),
    {
        self.lemma_entry(k);
        reveal(Document::visit_step);
    }

    /// Reading a separator (comma, or newline in JSON Lines) within the
    /// region: the scalar before it, if any, is taken in.
    proof fn lemma_step_sep(&self, st: VisitState, k: int, re: int)
        requires
            self.wf(),
            0 < k < self.total() - 1,
            st.err is None,
            st.prev <= self.pos(k) < re,
            self.spec_char(k) == COMMA,
            with_scalar(st, self.raw_before(st.prev, k)).err is None,
        ensures
            self.visit_step(st, self.tape.structural@[k], re) == moved_past(
                with_scalar(st, self.raw_before(st.prev, k)),
                self.pos(k),
            ),
    {
        self.lemma_entry(k);
        reveal(Document::visit_step);
    }

    /// Reading a closer within the region, inside an open container: the
    /// scalar before it, if any, is taken in, then the container ends.
    proof fn lemma_step_close(&self, st: VisitState, k: int, re: int)
        requires
            self.wf(),
            0 < k < self.total() - 1,
            st.err is None,
            st.depth >= 1,
            st.prev <= self.pos(k) < re,
            self.spec_char(k) == RBRACE || self.spec_char(k) == RBRACKET,
            with_scalar(st, self.raw_before(st.prev, k)).err is None,
        ensures
            ({
                let s2 = with_scalar(st, self.raw_before(st.prev, k));
                self.visit_step(st, self.tape.structural@[k], re) == (VisitState {
                    events: s2.events.push(
                        if self.spec_char(k) == RBRACE {
                            SpecEvent::EndObject
                        } else {
                            SpecEvent::EndArray
                        },
                    ),
                    depth: st.depth - 1,
                    prev: self.pos(k) + 1,
                    err: None,
                })
            }),
    {
        self.lemma_entry(k);
        reveal(Document::visit_step);
    }

    /// Reading a colon within the region: the key before it is taken in.
    proof fn lemma_step_colon(&self, st: VisitState, k: int, re: int)
        requires
            self.wf(),
            0 < k < self.total() - 1,
            st.err is None,
            st.prev <= self.pos(k) < re,
            self.spec_char(k) == COLON,
            unquote_spec(self.raw_before(st.prev, k)) is Ok,
        ensures
            self.visit_step(st, self.tape.structural@[k], re) == (VisitState {
                events: st.events.push(
                    SpecEvent::Key(unquote_spec(self.raw_before(st.prev, k))->Ok_0),
                ),
                prev: self.pos(k) + 1,
                ..st
            }),
    {
        self.lemma_entry(k);
        reveal(Document::visit_step);
    }
}


/// Folding over the single entry `k` is one step.
proof fn lemma_fold_one(doc: &Document, st: VisitState, k: int, re: int)
    ensures
        doc.visit_fold(st, k, k + 1, re) == doc.visit_step(st, doc.tape.structural@[k], re),
{
    let s1 = doc.visit_step(st, doc.tape.structural@[k], re);
    assert(doc.visit_fold(s1, k + 1, k + 1, re) == s1);
}

/// The end event of a container of kind `kind`.
pub open spec fn end_event(kind: Kind) -> SpecEvent {
    if kind == Kind::Object {
        SpecEvent::EndObject
    } else {
        SpecEvent::EndArray
    }
}

impl Document {
    /// Visiting a well-shaped container from its opener through its closer
    /// adds exactly its navigation events, and leaves the depth as it was.
    proof fn lemma_node_fold(&self, r: NodeRepr, fuel: nat, st: VisitState, re: int)
        requires
            self.wf(),
            r is Container,
            self.repr_ok(r),
            self.shaped_node(r, fuel),
            st.err is None,
            st.depth >= 0,
            0 <= st.prev <= self.pos(r->open as int),
            self.pos(r->close as int) < re,
        ensures
            self.visit_fold(st, r->open as int, r->close + 1, re) == (VisitState {
                events: st.events + self.node_events(r, fuel),
                prev: self.pos(r->close as int) + 1,
                depth: st.depth,
                err: None,
            }),
        decreases fuel, 0int,
    {
        let open = r->open as int;
        let close = r->close as int;
        let kind = r->kind;
        assert(self.pair_ok(open));
        self.lemma_entry(open);
        self.lemma_entry(close);
        self.lemma_step_open(st, open, re);
        let s1 = self.visit_step(st, self.tape.structural@[open], re);
        assert(self.visit_fold(st, open, close + 1, re) == self.visit_fold(s1, open + 1, close + 1, re));
        assert(self.spec_char(close) == closer_byte(self.spec_char(open)));
        if self.spec_empty_container(open, close) {
            self.lemma_raw_is_scalar(open);
            assert(with_scalar(s1, self.raw_before(s1.prev, close)) == s1);
            self.lemma_step_close(s1, close, re);
            lemma_fold_one(self, s1, close, re);
            assert(self.visit_fold(s1, close, close + 1, re) == self.visit_step(
                s1,
                self.tape.structural@[close],
                re,
            ));
            assert(self.spec_children(open, close) =~= Seq::<NodeRepr>::empty());
            assert(self.spec_pairs(open, close) =~= Seq::<(usize, NodeRepr)>::empty());
            assert(st.events.push(
                if kind == Kind::Object {
                    SpecEvent::BeginObject
                } else {
                    SpecEvent::BeginArray
                },
            ).push(end_event(kind)) =~= st.events + self.node_events(r, fuel));
        } else if kind != Kind::Object {
            self.lemma_items_fold(open, open, close, kind, (fuel - 1) as nat, s1, re);
            assert(st.events.push(SpecEvent::BeginArray) + self.items_events(
                self.spec_walk(open, close),
                (fuel - 1) as nat,
            ) + seq![SpecEvent::EndArray] =~= st.events + self.node_events(r, fuel));
        } else {
            self.lemma_members_fold(open, open, close, (fuel - 1) as nat, s1, re);
            assert(st.events.push(SpecEvent::BeginObject) + self.members_events(
                self.spec_obj_walk(open, close),
                (fuel - 1) as nat,
            ) + seq![SpecEvent::EndObject] =~= st.events + self.node_events(r, fuel));
        }
    }

    /// Visiting the value read after the delimiter `delim` inside the
    /// container `open..close`, through the separator or closer after it.
    proof fn lemma_value_fold(
        &self,
        open: int,
        close: int,
        kind: Kind,
        delim: int,
        fuel: nat,
        st: VisitState,
        re: int,
    )
        requires
            self.wf(),
            0 < open < close < self.total(),
            self.repr_ok(NodeRepr::Container { open: open as usize, close: close as usize, kind }),
            open <= delim < close,
            self.repr_ok(self.spec_read_value(delim)),
            delim < spec_next(self.spec_read_value(delim)) <= close,
            self.shaped_node(self.spec_read_value(delim), fuel),
            self.separated(self.spec_read_value(delim), close),
            st.err is None,
            st.depth >= 1,
            st.prev == self.pos(delim) + 1,
            self.pos(close) < re,
        ensures
            ({
                let r = self.spec_read_value(delim);
                let nd = spec_next(r);
                if nd == close {
                    self.visit_fold(st, delim + 1, close + 1, re) == (VisitState {
                        events: st.events + self.node_events(r, fuel) + seq![end_event(kind)],
                        prev: self.pos(close) + 1,
                        depth: st.depth - 1,
                        err: None,
                    })
                } else {
                    self.visit_fold(st, delim + 1, nd + 1, re) == (VisitState {
                        events: st.events + self.node_events(r, fuel),
                        prev: self.pos(nd) + 1,
                        depth: st.depth,
                        err: None,
                    })
                }
            }),
        decreases fuel, 1int,
    {
        let r = self.spec_read_value(delim);
        let nd = spec_next(r);
        assert(self.pair_ok(open));
        self.lemma_entry(delim);
        self.lemma_entry(nd);
        self.lemma_entry(close);
        assert(self.spec_char(close) == closer_byte(self.spec_char(open)));
        // The state just before the entry `nd` that ends the value.
        let pre = match r {
            NodeRepr::Scalar { .. } => {
                self.lemma_raw_is_scalar(delim);
                lemma_fold_one(self, st, nd, re);
                assert(self.visit_fold(st, delim + 1, nd + 1, re) == self.visit_step(
                    st,
                    self.tape.structural@[nd],
                    re,
                ));
                st
            },
            NodeRepr::Container { close: c, .. } => {
                self.lemma_entry(c as int);
                self.lemma_entry(delim + 1);
                self.lemma_node_fold(r, fuel, st, re);
                let s1 = self.visit_fold(st, delim + 1, c + 1, re);
                lemma_fold_split(self, st, delim + 1, nd, nd + 1, re);
                lemma_fold_one(self, s1, nd, re);
                assert(self.visit_fold(s1, nd, nd + 1, re) == self.visit_step(
                    s1,
                    self.tape.structural@[nd],
                    re,
                ));
                self.lemma_raw_is_scalar(c as int);
                s1
            },
        };
        let s2 = with_scalar(pre, self.raw_before(pre.prev, nd));
        assert(s2.events == st.events + self.node_events(r, fuel)) by {
            if r is Scalar {
                let e = scalar_event(self.spec_scalar_bytes(delim, nd))->Ok_0;
                assert(st.events.push(e) =~= st.events + seq![e]);
            }
        }
        assert(s2.err is None);
        assert(s2.depth == st.depth);
        assert(pre.prev <= self.pos(nd));
        if nd == close {
            self.lemma_step_close(pre, nd, re);
            assert(self.spec_char(close) == (if kind == Kind::Object {
                RBRACE
            } else {
                RBRACKET
            }));
            assert(s2.events.push(end_event(kind)) =~= st.events + self.node_events(r, fuel)
                + seq![end_event(kind)]);
        } else {
            self.lemma_step_sep(pre, nd, re);
        }
    }

    /// Visiting the elements of an array from the delimiter `delim` on,
    /// through its closer.
    proof fn lemma_items_fold(
        &self,
        open: int,
        delim: int,
        close: int,
        kind: Kind,
        fuel: nat,
        st: VisitState,
        re: int,
    )
        requires
            self.wf(),
            0 < open < close < self.total(),
            self.repr_ok(NodeRepr::Container { open: open as usize, close: close as usize, kind }),
            kind != Kind::Object,
            open <= delim < close,
            self.shaped_items(delim, close, fuel),
            st.err is None,
            st.depth >= 1,
            st.prev == self.pos(delim) + 1,
            self.pos(close) < re,
        ensures
            self.visit_fold(st, delim + 1, close + 1, re) == (VisitState {
                events: st.events + self.items_events(self.spec_walk(delim, close), fuel) + seq![
                    SpecEvent::EndArray,
                ],
                prev: self.pos(close) + 1,
                depth: st.depth - 1,
                err: None,
            }),
        decreases fuel, close - delim + 2,
    {
        let r = self.spec_read_value(delim);
        let nd = spec_next(r);
        self.lemma_walk_step(open, close, delim);
        self.lemma_value_fold(open, close, kind, delim, fuel, st, re);
        let w = self.spec_walk(delim, close);
        if nd == close {
            assert(self.spec_walk(nd, close) =~= Seq::<NodeRepr>::empty());
            assert(w =~= seq![r]);
            assert(w.drop_first() =~= Seq::<NodeRepr>::empty());
            assert(self.items_events(Seq::<NodeRepr>::empty(), fuel) == Seq::<SpecEvent>::empty());
            assert(self.items_events(w, fuel) =~= self.node_events(r, fuel));
        } else {
            let s3 = VisitState {
                events: st.events + self.node_events(r, fuel),
                prev: self.pos(nd) + 1,
                depth: st.depth,
                err: None,
            };
            lemma_fold_split(self, st, delim + 1, nd + 1, close + 1, re);
            self.lemma_items_fold(open, nd, close, kind, fuel, s3, re);
            let rest = self.spec_walk(nd, close);
            assert(w == seq![r] + rest);
            assert(w.drop_first() =~= rest);
            assert(self.items_events(w, fuel) == self.node_events(r, fuel) + self.items_events(
                rest,
                fuel,
            ));
            assert(s3.events + self.items_events(rest, fuel) + seq![SpecEvent::EndArray]
                =~= st.events + self.items_events(w, fuel) + seq![SpecEvent::EndArray]);
        }
    }

    /// Visiting the members of an object from the delimiter `delim` on,
    /// through its closer.
    proof fn lemma_members_fold(
        &self,
        open: int,
        delim: int,
        close: int,
        fuel: nat,
        st: VisitState,
        re: int,
    )
        requires
            self.wf(),
            0 < open < close < self.total(),
            self.repr_ok(
                NodeRepr::Container { open: open as usize, close: close as usize, kind: Kind::Object },
            ),
            open <= delim < close,
            self.shaped_members(delim, close, fuel),
            st.err is None,
            st.depth >= 1,
            st.prev == self.pos(delim) + 1,
            self.pos(close) < re,
        ensures
            self.visit_fold(st, delim + 1, close + 1, re) == (VisitState {
                events: st.events + self.members_events(self.spec_obj_walk(delim, close), fuel)
                    + seq![SpecEvent::EndObject],
                prev: self.pos(close) + 1,
                depth: st.depth - 1,
                err: None,
            }),
        decreases fuel, close - delim + 2,
    {
        let k = delim + 1;
        assert(self.pair_ok(open));
        self.lemma_entry(delim);
        self.lemma_entry(k);
        self.lemma_raw_is_scalar(delim);
        self.lemma_step_colon(st, k, re);
        let key = unquote_spec(self.spec_scalar_bytes(delim, k))->Ok_0;
        assert(key == self.spec_key_bytes(delim));
        let s1 = VisitState {
            events: st.events.push(SpecEvent::Key(key)),
            prev: self.pos(k) + 1,
            ..st
        };
        assert(self.visit_fold(st, k, close + 1, re) == self.visit_fold(s1, k + 1, close + 1, re));
        self.lemma_obj_step(open, close, delim);
        let r = self.spec_read_value(k);
        let nd = spec_next(r);
        self.lemma_value_fold(open, close, Kind::Object, k, fuel, s1, re);
        let w = self.spec_obj_walk(delim, close);
        if nd == close {
            assert(self.spec_obj_walk(nd, close) =~= Seq::<(usize, NodeRepr)>::empty());
            assert(w =~= seq![(delim as usize, r)]);
            assert(w.drop_first() =~= Seq::<(usize, NodeRepr)>::empty());
            assert(self.members_events(Seq::<(usize, NodeRepr)>::empty(), fuel)
                == Seq::<SpecEvent>::empty());
            assert(self.members_events(w, fuel) =~= seq![SpecEvent::Key(key)] + self.node_events(
                r,
                fuel,
            ));
            assert(s1.events + self.node_events(r, fuel) + seq![end_event(Kind::Object)]
                =~= st.events + self.members_events(w, fuel) + seq![SpecEvent::EndObject]);
        } else {
            let s3 = VisitState {
                events: s1.events + self.node_events(r, fuel),
                prev: self.pos(nd) + 1,
                depth: st.depth,
                err: None,
            };
            lemma_fold_split(self, s1, k + 1, nd + 1, close + 1, re);
            self.lemma_members_fold(open, nd, close, fuel, s3, re);
            let rest = self.spec_obj_walk(nd, close);
            assert(w == seq![(delim as usize, r)] + rest);
            assert(w.drop_first() =~= rest);
            assert(self.members_events(w, fuel) == seq![SpecEvent::Key(key)] + self.node_events(
                r,
                fuel,
            ) + self.members_events(rest, fuel));
            assert(s3.events + self.members_events(rest, fuel) + seq![SpecEvent::EndObject]
                =~= st.events + self.members_events(w, fuel) + seq![SpecEvent::EndObject]);
        }
    }
}


impl Document {
    /// Whether the top-level values from the delimiter `delim` on are well
    /// shaped or blank (the empty span of a blank line), each followed by
    /// a separator or the end, with nothing but whitespace after a
    /// container.
    pub open spec fn shaped_top(&self, delim: int, fuel: nat) -> bool
        decreases self.total() - delim,
    {
        let end = self.total() - 1;
        if delim < 0 || delim >= end {
            false
        } else {
            let r = self.spec_read_value(delim);
            let nd = spec_next(r);
            &&& (self.spec_blank(r) || self.shaped_node(r, fuel))
            &&& self.separated(r, end)
            &&& (nd == end || (delim < nd < end && self.shaped_top(nd, fuel)))
        }
    }

    /// Whether the whole document is well shaped: its top-level values are
    /// (with no real entries, that is the one scalar there may be).
    pub open spec fn shaped(&self, fuel: nat) -> bool {
        if self.total() <= 2 {
            let raw = trim_ws(self.input@);
            fuel > 0 && (raw.len() == 0 || scalar_event(raw) is Ok)
        } else {
            self.shaped_top(0, fuel)
        }
    }
}

pub(crate) proof fn lemma_items_events_add(d: &Document, a: Seq<NodeRepr>, b: Seq<NodeRepr>, fuel: nat)
    ensures
        d.items_events(a + b, fuel) == d.items_events(a, fuel) + d.items_events(b, fuel),
    decreases a.len(),
{
    if a.len() == 0 {
        assert(a + b =~= b);
        assert(Seq::<SpecEvent>::empty() + d.items_events(b, fuel) =~= d.items_events(b, fuel));
    } else {
        assert((a + b).drop_first() =~= a.drop_first() + b);
        assert((a + b)[0] == a[0]);
        lemma_items_events_add(d, a.drop_first(), b, fuel);
        assert(d.node_events(a[0], fuel) + (d.items_events(a.drop_first(), fuel) + d.items_events(
            b,
            fuel,
        )) =~= d.node_events(a[0], fuel) + d.items_events(a.drop_first(), fuel) + d.items_events(
            b,
            fuel,
        ));
    }
}

proof fn lemma_drop_blanks_add(d: &Document, a: Seq<NodeRepr>, b: Seq<NodeRepr>)
    ensures
        d.drop_blanks(a + b) == d.drop_blanks(a) + d.drop_blanks(b),
    decreases b.len(),
{
    if b.len() == 0 {
        assert(a + b =~= a);
        assert(d.drop_blanks(a) + Seq::<NodeRepr>::empty() =~= d.drop_blanks(a));
    } else {
        assert((a + b).drop_last() =~= a + b.drop_last());
        assert((a + b).last() == b.last());
        lemma_drop_blanks_add(d, a, b.drop_last());
        if !d.spec_blank(b.last()) {
            assert((d.drop_blanks(a) + d.drop_blanks(b.drop_last())).push(b.last()) =~= d.drop_blanks(
                a,
            ) + d.drop_blanks(b.drop_last()).push(b.last()));
        }
    }
}

impl Document {
    /// Visiting the top-level values from the delimiter `delim` on, and
    /// finishing, adds exactly the navigation events of the non-blank ones.
    proof fn lemma_top_fold(&self, delim: int, fuel: nat, st: VisitState)
        requires
            self.wf(),
            self.total() > 2,
            0 <= delim < self.total() - 1,
            self.shaped_top(delim, fuel),
            st.err is None,
            st.depth == 0,
            st.prev == self.spec_byte_pos(delim) + 1,
        ensures
            self.finish_range(
                self.visit_fold(st, delim + 1, self.total() - 1, self.input@.len() as int),
                self.total() - 1,
            ) == (
                st.events + self.items_events(
                    self.drop_blanks(self.spec_walk(delim, self.total() - 1)),
                    fuel,
                ),
                Ok::<(), Error>(()),
            ),
        decreases self.total() - delim,
    {
        let n = self.total();
        let end = n - 1;
        let len = self.input@.len() as int;
        self.lemma_root_interval();
        self.lemma_walk_step(0, end, delim);
        let r = self.spec_read_value(delim);
        let nd = spec_next(r);
        let w = self.spec_walk(delim, end);
        let rest = self.spec_walk(nd, end);
        assert(w == seq![r] + rest);
        lemma_drop_blanks_add(self, seq![r], rest);
        assert(seq![r].drop_last() =~= Seq::<NodeRepr>::empty());
        assert(seq![r].last() == r);
        assert(self.drop_blanks(Seq::<NodeRepr>::empty()) == Seq::<NodeRepr>::empty());
        let head = self.drop_blanks(seq![r]);
        assert(head == if self.spec_blank(r) {
            Seq::<NodeRepr>::empty()
        } else {
            Seq::<NodeRepr>::empty().push(r)
        });
        lemma_items_events_add(self, head, self.drop_blanks(rest), fuel);
        assert(head.len() == 0 ==> self.items_events(head, fuel) == Seq::<SpecEvent>::empty());
        if !self.spec_blank(r) {
            assert(head =~= seq![r]);
            assert(head.drop_first() =~= Seq::<NodeRepr>::empty());
            assert(self.items_events(Seq::<NodeRepr>::empty(), fuel) == Seq::<SpecEvent>::empty());
            assert(self.items_events(head, fuel) =~= self.node_events(r, fuel));
        }
        if delim > 0 {
            self.lemma_entry(delim);
        }
        if nd < end {
            self.lemma_entry(nd);
        }
        // The state just before the entry `nd` (or the end) that ends `r`.
        let pre = match r {
            NodeRepr::Scalar { .. } => st,
            NodeRepr::Container { close: c, .. } => {
                self.lemma_entry(c as int);
                self.lemma_entry(delim + 1);
                self.lemma_node_fold(r, fuel, st, len);
                let s1 = self.visit_fold(st, delim + 1, c + 1, len);
                lemma_fold_split(self, st, delim + 1, nd, end, len);
                s1
            },
        };
        assert(self.visit_fold(st, delim + 1, end, len) == self.visit_fold(pre, nd, end, len));
        let raw = if nd < end {
            self.raw_before(pre.prev, nd)
        } else {
            trim_ws(self.input@.subrange(pre.prev, len))
        };
        assert(raw == self.spec_scalar_bytes(
            if r is Scalar {
                delim
            } else {
                r->close as int
            },
            nd,
        ));
        let s2 = with_scalar(pre, raw);
        assert(s2.err is None);
        assert(s2.depth == 0);
        assert(s2.events == st.events + self.items_events(head, fuel)) by {
            if self.spec_blank(r) {
                assert(head.len() == 0);
                assert(st.events + Seq::<SpecEvent>::empty() =~= st.events);
            } else {
                assert(self.items_events(head, fuel) == self.node_events(r, fuel));
                if r is Scalar {
                    let e = scalar_event(raw)->Ok_0;
                    assert(self.node_events(r, fuel) == seq![e]);
                    assert(st.events.push(e) =~= st.events + seq![e]);
                } else {
                    assert(pre.events == st.events + self.node_events(r, fuel));
                }
            }
        }
        if nd == end {
            assert(self.spec_walk(nd, end) =~= Seq::<NodeRepr>::empty());
            assert(self.drop_blanks(rest) =~= Seq::<NodeRepr>::empty());
            assert(self.items_events(Seq::<NodeRepr>::empty(), fuel) == Seq::<SpecEvent>::empty());
            assert(self.visit_fold(pre, nd, end, len) == pre);
            assert(s2.events + Seq::<SpecEvent>::empty() =~= s2.events);
        } else {
            self.lemma_step_sep(pre, nd, len);
            lemma_fold_one(self, pre, nd, len);
            let s3 = moved_past(s2, self.pos(nd));
            lemma_fold_split(self, pre, nd, nd + 1, end, len);
            self.lemma_top_fold(nd, fuel, s3);
            assert(s3.events + self.items_events(self.drop_blanks(rest), fuel) =~= st.events
                + self.items_events(self.drop_blanks(w), fuel));
        }
    }
}


impl Document {
    /// `Document::visit` emits exactly the events of walking the top-level
    /// values with `Node` navigation (each container's begin, its members'
    /// keys and values or its elements, its end; each scalar's value), on
    /// every well-formed, valid UTF-8 document whose values are well
    /// shaped; and it succeeds.
    pub proof fn lemma_visit_matches_navigation(&self, fuel: nat)
        requires
            self.wf(),
            valid_utf8(self.input@),
            self.shaped(fuel),
        ensures
            self.spec_visit() == (
                self.items_events(self.spec_lines(), fuel),
                Ok::<(), Error>(()),
            ),
    {
        let n = self.total();
        let input = self.input@;
        assert(input.subrange(0, input.len() as int) =~= input);
        if n > 2 {
            let st = VisitState { events: Seq::empty(), prev: 0, depth: 0, err: None };
            self.lemma_top_fold(0, fuel, st);
            assert(!self.spec_empty_container(0, n - 1));
            let x = self.items_events(self.spec_lines(), fuel);
            assert(Seq::<SpecEvent>::empty() + x =~= x);
        } else {
            let raw = trim_ws(input);
            assert(self.spec_scalar_bytes(0, 1) == raw);
            assert(self.items_events(Seq::<NodeRepr>::empty(), fuel) == Seq::<SpecEvent>::empty());
            assert(self.drop_blanks(Seq::<NodeRepr>::empty()) == Seq::<NodeRepr>::empty());
            if raw.len() > 0 {
                let r = self.spec_read_value(0);
                assert(r == NodeRepr::Scalar { lo: 0, hi: 1 });
                assert(self.spec_walk(1, 1) =~= Seq::<NodeRepr>::empty());
                assert(self.spec_children(0, 1) =~= seq![r]);
                assert(seq![r].drop_last() =~= Seq::<NodeRepr>::empty());
                assert(self.spec_lines() =~= seq![r]);
                assert(seq![r].drop_first() =~= Seq::<NodeRepr>::empty());
                let e = scalar_event(raw)->Ok_0;
                assert(self.node_events(r, fuel) == seq![e]);
                assert(self.items_events(seq![r], fuel) =~= seq![e]);
            } else {
                assert(self.spec_lines() =~= Seq::<NodeRepr>::empty());
            }
        }
    }

    /// A document that holds exactly one value has that value, the root,
    /// as its only top-level value.
    pub proof fn lemma_single_value_lines(&self)
        requires
            self.wf(),
            self.spec_is_single_value(),
        ensures
            self.spec_lines() == seq![self.spec_read_value(0)],
    {
        let n = self.total();
        let r = self.spec_read_value(0);
        self.lemma_root_interval();
        self.lemma_walk_step(0, n - 1, 0);
        assert(self.spec_walk(spec_next(r), n - 1) =~= Seq::<NodeRepr>::empty()) by {
            if n > 2 {
                assert(self.pair_ok(1));
            }
        }
        if n > 2 {
            assert(self.pair_ok(1));
            assert(spec_next(r) == n - 1);
        } else {
            assert(self.spec_scalar_bytes(0, 1) == trim_ws(self.input@)) by {
                assert(self.input@.subrange(0, self.input@.len() as int) =~= self.input@);
            }
        }
        assert(!self.spec_empty_container(0, n - 1));
        assert(self.spec_children(0, n - 1) =~= seq![r]);
        assert(seq![r].drop_last() =~= Seq::<NodeRepr>::empty());
        assert(self.drop_blanks(Seq::<NodeRepr>::empty()) == Seq::<NodeRepr>::empty());
        assert(!self.spec_blank(r));
        assert(self.spec_lines() =~= seq![r]);
    }
}

impl Document {
    /// The top-level delimiters from `delim` on lie after it and before the
    /// artificial close, are commas (or newlines), and, when the values from
    /// `delim` on are well shaped, so are the values from each of them on.
    proof fn lemma_top_delims_facts(&self, delim: int, fuel: nat)
        requires
            self.wf(),
            0 <= delim < self.total() - 1,
            self.shaped_top(delim, fuel),
        ensures
            forall|k: int|
                0 <= k < self.spec_top_delims(delim).len() ==> {
                    let d = #[trigger] self.spec_top_delims(delim)[k];
                    &&& delim < d < self.total() - 1
                    &&& self.shaped_top(d, fuel)
                    &&& self.spec_char(d) == COMMA
                },
        decreases self.total() - delim,
    {
        let td = self.spec_top_delims(delim);
        let nd = spec_next(self.spec_read_value(delim));
        if delim < nd < self.total() - 1 {
            self.lemma_top_delims_facts(nd, fuel);
            let rest = self.spec_top_delims(nd);
            assert(td == seq![nd] + rest);
            assert forall|k: int| 0 <= k < td.len() implies {
                let d = #[trigger] td[k];
                &&& delim < d < self.total() - 1
                &&& self.shaped_top(d, fuel)
                &&& self.spec_char(d) == COMMA
            } by {
                if k > 0 {
                    assert(td[k] == rest[k - 1]);
                }
            }
        }
    }

    /// A later top-level delimiter from `x` on is one from any earlier one
    /// (or `x` itself) on.
    proof fn lemma_top_delims_transfer(&self, x: int, d1: int, d2: int, fuel: nat)
        requires
            self.wf(),
            0 <= x < self.total() - 1,
            self.shaped_top(x, fuel),
            d1 == x || self.spec_top_delims(x).contains(d1),
            self.spec_top_delims(x).contains(d2),
            d1 < d2,
        ensures
            self.spec_top_delims(d1).contains(d2),
        decreases self.total() - x,
    {
        if d1 != x {
            let nd = spec_next(self.spec_read_value(x));
            let td = self.spec_top_delims(x);
            let rest = self.spec_top_delims(nd);
            assert(td == seq![nd] + rest);
            self.lemma_top_delims_facts(x, fuel);
            self.lemma_top_delims_facts(nd, fuel);
            let k1 = choose|k: int| 0 <= k < td.len() && td[k] == d1;
            let k2 = choose|k: int| 0 <= k < td.len() && td[k] == d2;
            if k2 == 0 {
                assert(td[k1] > x);
                assert(k1 > 0 ==> td[k1] == rest[k1 - 1] && rest[k1 - 1] > nd);
            } else {
                assert(td[k2] == rest[k2 - 1]);
                assert(rest.contains(d2));
                if k1 > 0 {
                    assert(td[k1] == rest[k1 - 1]);
                    assert(rest.contains(d1));
                }
                self.lemma_top_delims_transfer(nd, d1, d2, fuel);
            }
        }
    }

    /// Visiting the top-level values from `delim` up to a later top-level
    /// delimiter `target` succeeds, closes every container and leaves the
    /// read position just past `target`.
    proof fn lemma_top_fold_mid(&self, delim: int, target: int, fuel: nat, st: VisitState)
        requires
            self.wf(),
            self.total() > 2,
            0 <= delim < self.total() - 1,
            self.shaped_top(delim, fuel),
            self.spec_top_delims(delim).contains(target),
            st.err is None,
            st.depth == 0,
            st.prev == self.spec_byte_pos(delim) + 1,
        ensures
            ({
                let f = self.visit_fold(st, delim + 1, target + 1, self.input@.len() as int);
                &&& f.err is None
                &&& f.depth == 0
                &&& f.prev == self.pos(target) + 1
            }),
        decreases self.total() - delim,
    {
        let n = self.total();
        let end = n - 1;
        let len = self.input@.len() as int;
        self.lemma_root_interval();
        self.lemma_walk_step(0, end, delim);
        self.lemma_top_delims_facts(delim, fuel);
        let r = self.spec_read_value(delim);
        let nd = spec_next(r);
        let td = self.spec_top_delims(delim);
        assert(delim < nd < end);
        assert(td == seq![nd] + self.spec_top_delims(nd));
        if delim > 0 {
            self.lemma_entry(delim);
        }
        self.lemma_entry(nd);
        let pre = match r {
            NodeRepr::Scalar { .. } => st,
            NodeRepr::Container { close: c, .. } => {
                self.lemma_entry(c as int);
                self.lemma_entry(delim + 1);
                self.lemma_node_fold(r, fuel, st, len);
                let s1 = self.visit_fold(st, delim + 1, c + 1, len);
                lemma_fold_split(self, st, delim + 1, nd, nd, len);
                s1
            },
        };
        assert(self.visit_fold(st, delim + 1, nd, len) == pre) by {
            if let NodeRepr::Container { close: c, .. } = r {
                assert(nd == c + 1);
            } else {
                assert(nd == delim + 1);
            }
        }
        let raw = self.raw_before(pre.prev, nd);
        assert(raw == self.spec_scalar_bytes(
            if r is Scalar {
                delim
            } else {
                r->close as int
            },
            nd,
        ));
        let s2 = with_scalar(pre, raw);
        assert(s2.err is None);
        assert(s2.depth == 0);
        self.lemma_step_sep(pre, nd, len);
        lemma_fold_one(self, pre, nd, len);
        let s3 = moved_past(s2, self.pos(nd));
        lemma_fold_split(self, st, delim + 1, nd, nd + 1, len);
        assert(self.visit_fold(st, delim + 1, nd + 1, len) == s3);
        if target != nd {
            let k = choose|k: int| 0 <= k < td.len() && td[k] == target;
            assert(k > 0);
            assert(self.spec_top_delims(nd).contains(target)) by {
                assert(self.spec_top_delims(nd)[k - 1] == target);
            }
            self.lemma_top_delims_facts(nd, fuel);
            assert(target > nd) by {
                assert(self.spec_top_delims(nd)[k - 1] == target);
            }
            self.lemma_top_fold_mid(nd, target, fuel, s3);
            lemma_fold_split(self, st, delim + 1, nd + 1, target + 1, len);
        }
    }
}

impl Document {
    /// The ranges `split_fold` makes from top-level delimiters: they tile
    /// the entries from `start` to the artificial close, each non-empty,
    /// each starting at `1` or just past a top-level delimiter and ending
    /// at the artificial close or just past one.
    proof fn lemma_split_fold_ranges(&self, delims: Seq<int>, start: int, target: int, fuel: nat)
        requires
            self.wf(),
            self.total() > 2,
            self.shaped_top(0, fuel),
            forall|i: int|
                0 <= i < delims.len() ==> self.spec_top_delims(0).contains(#[trigger] delims[i]),
            start == 1 || self.spec_top_delims(0).contains(start - 1),
            1 <= start < self.total() - 1,
            target >= 1,
        ensures
            ({
                let rs = split_fold(delims, start, target, self.total());
                let n = self.total();
                &&& rs.len() >= 1
                &&& rs[0].0 == start
                &&& rs.last().1 == n - 1
                &&& forall|k: int| 0 <= k < rs.len() - 1 ==> (#[trigger] rs[k]).1 == rs[k + 1].0
                &&& forall|k: int|
                    0 <= k < rs.len() ==> {
                        let (a, b) = #[trigger] rs[k];
                        &&& a < b
                        &&& a == 1 || self.spec_top_delims(0).contains(a - 1)
                        &&& b == n - 1 || self.spec_top_delims(0).contains(b - 1)
                    }
            }),
        decreases delims.len(),
    {
        let n = self.total();
        let rs = split_fold(delims, start, target, n);
        if delims.len() > 0 {
            let next = delims[0] + 1;
            let rest = delims.drop_first();
            assert forall|i: int| 0 <= i < rest.len() implies self.spec_top_delims(0).contains(
                #[trigger] rest[i],
            ) by {
                assert(rest[i] == delims[i + 1]);
            }
            assert(self.spec_top_delims(0).contains(delims[0]));
            if next < n - 1 && next - start >= target {
                self.lemma_split_fold_ranges(rest, next, target, fuel);
                let tail = split_fold(rest, next, target, n);
                assert(rs == seq![(start, next)] + tail);
                assert forall|k: int| 0 <= k < rs.len() - 1 implies (#[trigger] rs[k]).1 == rs[k
                    + 1].0 by {
                    if k > 0 {
                        assert(rs[k] == tail[k - 1]);
                    }
                    assert(rs[k + 1] == tail[k]);
                }
                assert forall|k: int| 0 <= k < rs.len() implies {
                    let (a, b) = #[trigger] rs[k];
                    &&& a < b
                    &&& a == 1 || self.spec_top_delims(0).contains(a - 1)
                    &&& b == n - 1 || self.spec_top_delims(0).contains(b - 1)
                } by {
                    if k > 0 {
                        assert(rs[k] == tail[k - 1]);
                    }
                }
                assert(rs.last() == tail.last());
            } else {
                self.lemma_split_fold_ranges(rest, start, target, fuel);
            }
        }
    }

    /// On a well-formed, valid UTF-8 document whose values are well shaped,
    /// every range that `split_lines` gives visits successfully, and the
    /// ranges' visits, one after another, give exactly the whole visit.
    pub proof fn lemma_split_lines_visits_succeed(&self, parts: int, fuel: nat)
        requires
            self.wf(),
            valid_utf8(self.input@),
            self.shaped(fuel),
            self.total() > 2,
        ensures
            tiles(self.spec_split_lines(parts), self.total() - 1),
            forall|k: int|
                0 <= k < self.spec_split_lines(parts).len() ==> (#[trigger] self.spec_visit_range(
                    self.spec_split_lines(parts)[k].0,
                    self.spec_split_lines(parts)[k].1,
                )).1 is Ok,
            self.spec_visit() == (
                ranges_events(self, self.spec_split_lines(parts)),
                Ok::<(), Error>(()),
            ),
    {
        let n = self.total();
        let p = if parts < 1 {
            1
        } else {
            parts
        };
        let target = ceil_div(n - 2, p);
        assert(target >= 1) by (nonlinear_arith)
            requires
                n - 2 >= 1,
                p >= 1,
                target == ceil_div(n - 2, p),
        {
        }
        let delims = self.spec_top_delims(0);
        let rs = self.spec_split_lines(parts);
        assert(rs == split_fold(delims, 1, target, n));
        self.lemma_split_fold_ranges(delims, 1, target, fuel);
        assert forall|k: int| 0 <= k < rs.len() implies (#[trigger] self.spec_visit_range(
            rs[k].0,
            rs[k].1,
        )).1 is Ok by {
            let (a, b) = rs[k];
            self.lemma_range_visit_ok(a, b, fuel);
        }
        lemma_visit_tiles(self, rs);
    }

    /// A top-level delimiter reached from the start: a real entry before
    /// the artificial close, a comma or newline byte, with well-shaped
    /// values from it on.
    proof fn lemma_top_delim_member(&self, d: int, fuel: nat)
        requires
            self.wf(),
            self.total() > 2,
            self.shaped_top(0, fuel),
            self.spec_top_delims(0).contains(d),
        ensures
            0 < d < self.total() - 1,
            self.shaped_top(d, fuel),
            0 <= self.pos(d) < self.input@.len(),
            self.input@[self.pos(d)] < 0x80,
            self.spec_byte_pos(d) == self.pos(d),
    {
        self.lemma_top_delims_facts(0, fuel);
        let k = choose|k: int|
            0 <= k < self.spec_top_delims(0).len() && self.spec_top_delims(0)[k] == d;
        assert(self.spec_char(d) == COMMA);
        self.lemma_entry(d);
    }

    /// The last range, from `1` or just past a top-level delimiter to the
    /// artificial close, visits successfully.
    #[verifier::spinoff_prover]
    proof fn lemma_last_range_visit_ok(&self, a: int, fuel: nat)
        requires
            self.wf(),
            valid_utf8(self.input@),
            self.total() > 2,
            self.shaped_top(0, fuel),
            a < self.total() - 1,
            a == 1 || self.spec_top_delims(0).contains(a - 1),
        ensures
            self.spec_visit_range(a, self.total() - 1).1 is Ok,
    {
        let n = self.total();
        let input = self.input@;
        let len = input.len() as int;
        let d1 = a - 1;
        if a != 1 {
            self.lemma_top_delim_member(d1, fuel);
        }
        let prev = if a == 1 {
            0
        } else {
            self.tape.structural@[d1] as int
        };
        assert(a != 1 ==> 1 <= self.tape.structural@[d1] <= len);
        assert(self.region_start(a) == Some(prev));
        let st0 = VisitState { events: Seq::empty(), prev, depth: 0, err: None };
        assert(self.region_end(n - 1) == len);
        self.lemma_top_fold(d1, fuel, st0);
        if d1 > 0 {
            lemma_ascii_cut(input, self.pos(d1));
        } else {
            assert(input.subrange(0, len) =~= input);
        }
    }

    /// A range from `1` or just past a top-level delimiter to just past a
    /// later one visits successfully.
    #[verifier::spinoff_prover]
    #[verifier::rlimit(40)]
    proof fn lemma_mid_range_visit_ok(&self, a: int, b: int, fuel: nat)
        requires
            self.wf(),
            valid_utf8(self.input@),
            self.total() > 2,
            self.shaped_top(0, fuel),
            a < b,
            a == 1 || self.spec_top_delims(0).contains(a - 1),
            self.spec_top_delims(0).contains(b - 1),
            b < self.total() - 1,
        ensures
            self.spec_visit_range(a, b).1 is Ok,
    {
        let n = self.total();
        let input = self.input@;
        let len = input.len() as int;
        let d1 = a - 1;
        let d2 = b - 1;
        if a != 1 {
            self.lemma_top_delim_member(d1, fuel);
        }
        self.lemma_top_delim_member(d2, fuel);
        assert(1 <= self.tape.structural@[d2] <= len);
        let prev = if a == 1 {
            0
        } else {
            self.tape.structural@[d1] as int
        };
        assert(a != 1 ==> 1 <= self.tape.structural@[d1] <= len);
        assert(self.region_start(a) == Some(prev));
        let st0 = VisitState { events: Seq::empty(), prev, depth: 0, err: None };
        let re = self.tape.structural@[d2] as int;
        assert(self.region_end(b) == re);
        self.lemma_top_delims_transfer(0, d1, d2, fuel);
        self.lemma_top_fold_mid(d1, d2, fuel, st0);
        assert forall|j: int| a <= j < b implies #[trigger] self.tape.structural@[j] <= re by {
            if j < d2 {
                assert(self.tape.structural@[j] < self.tape.structural@[d2]);
            }
        }
        lemma_fold_narrower(self, st0, a, b, re, len);
        assert(a != 1 ==> self.tape.structural@[d1] < self.tape.structural@[d2]);
        assert(self.pos(d2) == re - 1);
        assert(a != 1 ==> self.pos(d1) == prev - 1);
        lemma_cut_between(input, prev, re);
    }

    /// A range from `1` or just past a top-level delimiter to the
    /// artificial close or just past a later one visits successfully.
    proof fn lemma_range_visit_ok(&self, a: int, b: int, fuel: nat)
        requires
            self.wf(),
            valid_utf8(self.input@),
            self.total() > 2,
            self.shaped_top(0, fuel),
            a < b,
            a == 1 || self.spec_top_delims(0).contains(a - 1),
            b == self.total() - 1 || self.spec_top_delims(0).contains(b - 1),
        ensures
            self.spec_visit_range(a, b).1 is Ok,
    {
        if b == self.total() - 1 {
            self.lemma_last_range_visit_ok(a, fuel);
        } else {
            self.lemma_top_delim_member(b - 1, fuel);
            self.lemma_mid_range_visit_ok(a, b, fuel);
        }
    }
}

/// Valid UTF-8 cut just after ASCII bytes (or at its start) gives a valid
/// piece between the cuts.
proof fn lemma_cut_between(input: Seq<u8>, prev: int, re: int)
    requires
        valid_utf8(input),
        0 <= prev < re <= input.len(),
        input[re - 1] < 0x80,
        prev > 0 ==> input[prev - 1] < 0x80,
    ensures
        valid_utf8(input.subrange(prev, re)),
{
    lemma_ascii_cut(input, re - 1);
    let x = input.subrange(0, re);
    if prev > 0 {
        assert(x[prev - 1] == input[prev - 1]);
        lemma_ascii_cut(x, prev - 1);
        assert(x.subrange(prev, re) =~= input.subrange(prev, re));
    } else {
        assert(x =~= input.subrange(0, re));
    }
}

} // verus!
