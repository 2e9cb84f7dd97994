//! Single-pass event walk over a tape.

use std::ops::Range;

use vstd::prelude::*;
use vstd::utf8::valid_utf8;

use super::document::{
    is_quoted, lit_false, lit_null, lit_true, quoted_body, scalar_kind, scalar_kind_spec,
    spec_next, Document, Kind, NodeRepr,
};
use super::error::Error;
use super::text::{
    is_valid_utf8, string_from_utf8, trim_ascii, trim_ws, unescape_bytes, unescape_spec, COLON,
    COMMA, LBRACE, LBRACKET, NEWLINE, QUOTE, RBRACE, RBRACKET,
};

verus! {

/// Receives the events of [`Document::visit`], in document order.
///
/// `string` and `key` get unescaped text; `number` gets the raw, unparsed
/// bytes (the GPU parser does not validate number grammar). Each method
/// adds its event at the end of `received`, the events handed so far; a
/// verified implementation defines `received` (the empty default is for
/// implementations outside verified code, which nothing checks).
pub trait Visitor {
    /// The events this visitor has been handed so far, in order.
    closed spec fn received(&self) -> Seq<SpecEvent> {
        Seq::empty()
    }

    fn begin_object(&mut self)
        ensures
            final(self).received() == old(self).received().push(SpecEvent::BeginObject),
    ;

    fn end_object(&mut self)
        ensures
            final(self).received() == old(self).received().push(SpecEvent::EndObject),
    ;

    fn begin_array(&mut self)
        ensures
            final(self).received() == old(self).received().push(SpecEvent::BeginArray),
    ;

    fn end_array(&mut self)
        ensures
            final(self).received() == old(self).received().push(SpecEvent::EndArray),
    ;

    fn key(&mut self, key: &str)
        ensures
            final(self).received() == old(self).received().push(
                SpecEvent::Key(vstd::utf8::encode_utf8(key@)),
            ),
    ;

    fn string(&mut self, value: &str)
        ensures
            final(self).received() == old(self).received().push(
                SpecEvent::Str(vstd::utf8::encode_utf8(value@)),
            ),
    ;

    fn number(&mut self, raw: &[u8])
        ensures
            final(self).received() == old(self).received().push(SpecEvent::Number(raw@)),
    ;

    fn boolean(&mut self, value: bool)
        ensures
            final(self).received() == old(self).received().push(SpecEvent::Bool(value)),
    ;

    fn null(&mut self)
        ensures
            final(self).received() == old(self).received().push(SpecEvent::Null),
    ;
}

/// One visit event, with strings as their UTF-8 bytes.
pub enum SpecEvent {
    BeginObject,
    EndObject,
    BeginArray,
    EndArray,
    Key(Seq<u8>),
    Str(Seq<u8>),
    Number(Seq<u8>),
    Bool(bool),
    Null,
}

/// One visit event.
#[derive(Debug, Clone, PartialEq, Eq)]
pub enum Event {
    BeginObject,
    EndObject,
    BeginArray,
    EndArray,
    Key(String),
    Str(String),
    Number(Vec<u8>),
    Bool(bool),
    Null,
}

impl View for Event {
    type V = SpecEvent;

    open spec fn view(&self) -> SpecEvent {
        match self {
            Event::BeginObject => SpecEvent::BeginObject,
            Event::EndObject => SpecEvent::EndObject,
            Event::BeginArray => SpecEvent::BeginArray,
            Event::EndArray => SpecEvent::EndArray,
            Event::Key(s) => SpecEvent::Key(vstd::utf8::encode_utf8(s@)),
            Event::Str(s) => SpecEvent::Str(vstd::utf8::encode_utf8(s@)),
            Event::Number(v) => SpecEvent::Number(v@),
            Event::Bool(b) => SpecEvent::Bool(*b),
            Event::Null => SpecEvent::Null,
        }
    }
}

/// The views of a sequence of events.
pub open spec fn events_view(v: Seq<Event>) -> Seq<SpecEvent> {
    v.map_values(|e: Event| e@)
}

/// The text of a string literal `raw`, unescaped.
pub open spec fn unquote_spec(raw: Seq<u8>) -> Result<Seq<u8>, Error> {
    if is_quoted(raw) {
        unescape_spec(quoted_body(raw))
    } else {
        Err(Error::TypeMismatch("string"))
    }
}

/// The event for the trimmed scalar text `raw`.
pub open spec fn scalar_event(raw: Seq<u8>) -> Result<SpecEvent, Error> {
    match scalar_kind_spec(raw) {
        Kind::String => match unquote_spec(raw) {
            Ok(s) => Ok(SpecEvent::Str(s)),
            Err(e) => Err(e),
        },
        Kind::Bool => if raw == lit_true() {
            Ok(SpecEvent::Bool(true))
        } else if raw == lit_false() {
            Ok(SpecEvent::Bool(false))
        } else {
            Err(Error::TypeMismatch("bool"))
        },
        Kind::Null => if raw == lit_null() {
            Ok(SpecEvent::Null)
        } else {
            Err(Error::TypeMismatch("null"))
        },
        _ => Ok(SpecEvent::Number(raw)),
    }
}

/// Progress of a visit: the events so far, the byte just after the last
/// structural entry read, the open container count, and the first error.
pub struct VisitState {
    pub events: Seq<SpecEvent>,
    pub prev: int,
    pub depth: int,
    pub err: Option<Error>,
}

/// `st` with the event for the scalar `raw` added (nothing when `raw` is
/// empty), or its error.
pub open spec fn with_scalar(st: VisitState, raw: Seq<u8>) -> VisitState {
    if raw.len() == 0 {
        st
    } else {
        match scalar_event(raw) {
            Ok(e) => VisitState { events: st.events.push(e), ..st },
            Err(e) => VisitState { err: Some(e), ..st },
        }
    }
}

impl Document {
    /// The visit step for the structural entry holding `p`, within a region
    /// ending at byte `region_end`.
    #[verifier::opaque]
    pub open spec fn visit_step(&self, st: VisitState, p: i32, region_end: int) -> VisitState {
        if st.err is Some {
            st
        } else {
            let pos = p - 1;
            let lim = if region_end < 1 {
                1
            } else {
                region_end
            };
            if pos < st.prev || pos >= lim || pos >= self.input@.len() {
                VisitState { err: Some(Error::IndexOutOfRange), ..st }
            } else {
                let raw = trim_ws(self.input@.subrange(st.prev, pos));
                let c = self.input@[pos];
                let moved = VisitState { prev: pos + 1, ..st };
                if c == LBRACE {
                    VisitState {
                        events: st.events.push(SpecEvent::BeginObject),
                        depth: st.depth + 1,
                        ..moved
                    }
                } else if c == LBRACKET {
                    VisitState {
                        events: st.events.push(SpecEvent::BeginArray),
                        depth: st.depth + 1,
                        ..moved
                    }
                } else if c == COLON {
                    match unquote_spec(raw) {
                        Ok(k) => VisitState { events: st.events.push(SpecEvent::Key(k)), ..moved },
                        Err(e) => VisitState { err: Some(e), ..st },
                    }
                } else if c == COMMA || c == NEWLINE {
                    let s2 = with_scalar(st, raw);
                    if s2.err is Some {
                        s2
                    } else {
                        VisitState { prev: pos + 1, ..s2 }
                    }
                } else if c == RBRACE || c == RBRACKET {
                    let s2 = with_scalar(st, raw);
                    if s2.err is Some {
                        s2
                    } else if s2.depth == 0 {
                        VisitState { err: Some(Error::UnbalancedBrackets), ..s2 }
                    } else {
                        VisitState {
                            events: s2.events.push(
                                if c == RBRACE {
                                    SpecEvent::EndObject
                                } else {
                                    SpecEvent::EndArray
                                },
                            ),
                            depth: s2.depth - 1,
                            prev: pos + 1,
                            ..s2
                        }
                    }
                } else {
                    moved
                }
            }
        }
    }

    /// The visit over the structural entries `k..end`.
    pub open spec fn visit_fold(&self, st: VisitState, k: int, end: int, region_end: int) -> VisitState
        decreases end - k,
    {
        if k >= end {
            st
        } else {
            self.visit_fold(
                self.visit_step(st, self.tape.structural@[k], region_end),
                k + 1,
                end,
                region_end,
            )
        }
    }

    /// Byte where the region read for the entries `start..end` begins, or
    /// `None` when the entry before `start` is negative.
    pub open spec fn region_start(&self, start: int) -> Option<int> {
        if start == 1 {
            Some(0)
        } else if self.tape.structural@[start - 1] < 0 {
            None
        } else {
            Some(self.tape.structural@[start - 1] as int)
        }
    }

    /// Byte where the region read for the entries `start..end` ends.
    pub open spec fn region_end(&self, end: int) -> int {
        let n = self.total();
        if end == n - 1 {
            self.input@.len() as int
        } else {
            let s = self.tape.structural@[end - 1];
            if s < 0 || s > self.input@.len() {
                self.input@.len() as int
            } else {
                s as int
            }
        }
    }

    /// Events and outcome of visiting the tape entries `start..end`.
    pub open spec fn spec_visit_range(&self, start: int, end: int) -> (Seq<SpecEvent>, Result<(), Error>) {
        let n = self.total();
        if start == 0 || end > n - 1 {
            (Seq::empty(), Err(Error::IndexOutOfRange))
        } else {
            match self.region_start(start) {
                None => (Seq::empty(), Err(Error::IndexOutOfRange)),
                Some(prev) => {
                    let re = self.region_end(end);
                    if prev > re {
                        (Seq::empty(), Err(Error::IndexOutOfRange))
                    } else if !valid_utf8(self.input@.subrange(prev, re)) {
                        (Seq::empty(), Err(Error::InvalidUtf8))
                    } else {
                        self.finish_range(
                            self.visit_fold(
                                VisitState { events: Seq::empty(), prev, depth: 0, err: None },
                                start,
                                end,
                                re,
                            ),
                            end,
                        )
                    }
                },
            }
        }
    }

    /// The outcome once the entries of a range ending at `end` have been
    /// visited: the last line's trailing scalar, then the balance check.
    pub open spec fn finish_range(&self, st: VisitState, end: int) -> (Seq<SpecEvent>, Result<(), Error>) {
        let n = self.total();
        match st.err {
            Some(e) => (st.events, Err(e)),
            None => {
                let fin = if end == n - 1 {
                    let from = if st.prev > self.input@.len() {
                        self.input@.len() as int
                    } else {
                        st.prev
                    };
                    with_scalar(st, trim_ws(self.input@.subrange(from, self.input@.len() as int)))
                } else {
                    st
                };
                match fin.err {
                    Some(e) => (fin.events, Err(e)),
                    None => if fin.depth != 0 {
                        (fin.events, Err(Error::UnbalancedBrackets))
                    } else {
                        (fin.events, Ok(()))
                    },
                }
            },
        }
    }

    /// Events and outcome of visiting the whole document.
    pub open spec fn spec_visit(&self) -> (Seq<SpecEvent>, Result<(), Error>) {
        let n = self.total();
        if n <= 2 {
            let raw = trim_ws(self.input@);
            if !valid_utf8(self.input@) {
                (Seq::empty(), Err(Error::InvalidUtf8))
            } else if raw.len() == 0 {
                (Seq::empty(), Ok(()))
            } else {
                match scalar_event(raw) {
                    Ok(e) => (seq![e], Ok(())),
                    Err(e) => (Seq::empty(), Err(e)),
                }
            }
        } else {
            self.spec_visit_range(1, n - 1)
        }
    }
}

/// The text of a string literal `raw`, unescaped.
fn unquote(raw: &[u8]) -> (res: Result<String, Error>)
    requires
        raw@.len() <= isize::MAX,
    ensures
        match res {
            Ok(s) => unquote_spec(raw@) == Ok::<Seq<u8>, Error>(vstd::utf8::encode_utf8(s@)),
            Err(e) => unquote_spec(raw@) == Err::<Seq<u8>, Error>(e),
        },
{
    if raw.len() < 2 || raw[0] != QUOTE || raw[raw.len() - 1] != QUOTE {
        return Err(Error::TypeMismatch("string"));
    }
    let inner = vstd::slice::slice_subrange(raw, 1, raw.len() - 1);
    let v = unescape_bytes(inner)?;
    Ok(string_from_utf8(v.as_slice()))
}

/// The event for the trimmed scalar text `raw`.
fn scalar(raw: &[u8]) -> (res: Result<Event, Error>)
    requires
        raw@.len() <= isize::MAX,
    ensures
        match res {
            Ok(e) => scalar_event(raw@) == Ok::<SpecEvent, Error>(e@),
            Err(e) => scalar_event(raw@) == Err::<SpecEvent, Error>(e),
        },
{
    match scalar_kind(raw) {
        Kind::String => {
            let s = unquote(raw)?;
            Ok(Event::Str(s))
        },
        Kind::Bool => {
            if raw.len() == 4 && raw[0] == 0x74 && raw[1] == 0x72 && raw[2] == 0x75 && raw[3]
                == 0x65 {
                assert(raw@ =~= lit_true());
                Ok(Event::Bool(true))
            } else if raw.len() == 5 && raw[0] == 0x66 && raw[1] == 0x61 && raw[2] == 0x6C
                && raw[3] == 0x73 && raw[4] == 0x65 {
                assert(raw@ =~= lit_false());
                Ok(Event::Bool(false))
            } else {
                proof {
                    if raw@ == lit_true() {
                        assert(raw@[0] == 0x74);
                    }
                    if raw@ == lit_false() {
                        assert(raw@[0] == 0x66);
                    }
                }
                Err(Error::TypeMismatch("bool"))
            }
        },
        Kind::Null => {
            if raw.len() == 4 && raw[0] == 0x6E && raw[1] == 0x75 && raw[2] == 0x6C && raw[3]
                == 0x6C {
                assert(raw@ =~= lit_null());
                Ok(Event::Null)
            } else {
                proof {
                    if raw@ == lit_null() {
                        assert(raw@[1] == 0x75);
                    }
                }
                Err(Error::TypeMismatch("null"))
            }
        },
        _ => Ok(Event::Number(vstd::slice::slice_to_vec(raw))),
    }
}

pub(crate) proof fn lemma_fold_err(doc: &Document, st: VisitState, k: int, end: int, region_end: int)
    requires
        st.err is Some,
    ensures
        doc.visit_fold(st, k, end, region_end) == st,
    decreases end - k,
{
    reveal(Document::visit_step);
    if k < end {
        lemma_fold_err(doc, st, k + 1, end, region_end);
    }
}

impl Document {
    /// One visit step for the structural entry holding `p`.
    fn visit_entry(
        &self,
        events: &mut Vec<Event>,
        prev: usize,
        depth: usize,
        p: i32,
        region_end: usize,
    ) -> (r: Result<(usize, usize), Error>)
        requires
            region_end <= self.input@.len() <= isize::MAX,
            prev <= self.input@.len(),
            depth < usize::MAX,
        ensures
            ({
                let st = VisitState {
                    events: events_view(old(events)@),
                    prev: prev as int,
                    depth: depth as int,
                    err: None,
                };
                let nx = self.visit_step(st, p, region_end as int);
                match r {
                    Ok((np, nd)) => nx.err is None && nx.events == events_view(final(events)@)
                        && nx.prev == np && nx.depth == nd && np <= self.input@.len() && nd
                        <= depth + 1,
                    Err(e) => nx.err == Some(e) && nx.events == events_view(final(events)@),
                }
            }),
    {
        reveal(Document::visit_step);
        let input = self.input.as_slice();
        let len = input.len();
        let lim = if region_end < 1 {
            1
        } else {
            region_end
        };
        if p < 1 {
            return Err(Error::IndexOutOfRange);
        }
        let pos = (p - 1) as usize;
        if pos < prev || pos >= lim || pos >= len {
            return Err(Error::IndexOutOfRange);
        }
        let raw = trim_ascii(vstd::slice::slice_subrange(input, prev, pos));
        let c = input[pos];
        let ghost before = events_view(events@);
        if c == LBRACE {
            events.push(Event::BeginObject);
            assert(events_view(events@) =~= before.push(SpecEvent::BeginObject));
            return Ok((pos + 1, depth + 1));
        } else if c == LBRACKET {
            events.push(Event::BeginArray);
            assert(events_view(events@) =~= before.push(SpecEvent::BeginArray));
            return Ok((pos + 1, depth + 1));
        } else if c == COLON {
            let key = unquote(raw)?;
            events.push(Event::Key(key));
            assert(events_view(events@) =~= before.push(events@.last()@));
            return Ok((pos + 1, depth));
        } else if c == COMMA || c == NEWLINE || c == RBRACE || c == RBRACKET {
            if raw.len() != 0 {
                let e = scalar(raw)?;
                events.push(e);
                assert(events_view(events@) =~= before.push(events@.last()@));
            }
            let ghost mid = events_view(events@);
            if c == RBRACE || c == RBRACKET {
                if depth == 0 {
                    return Err(Error::UnbalancedBrackets);
                }
                if c == RBRACE {
                    events.push(Event::EndObject);
                    assert(events_view(events@) =~= mid.push(SpecEvent::EndObject));
                } else {
                    events.push(Event::EndArray);
                    assert(events_view(events@) =~= mid.push(SpecEvent::EndArray));
                }
                return Ok((pos + 1, depth - 1));
            }
            return Ok((pos + 1, depth));
        }
        Ok((pos + 1, depth))
    }

    /// Events and outcome of visiting the tape entries `range` (indices
    /// into `structural`, within `1..len-1`). On an error, the events
    /// before it are kept.
    pub fn events_range(&self, range: Range<usize>) -> (res: (Vec<Event>, Result<(), Error>))
        requires
            self.total() >= 1,
            range.start <= range.end,
            self.input@.len() <= isize::MAX,
        ensures
            events_view(res.0@) == self.spec_visit_range(range.start as int, range.end as int).0,
            res.1 == self.spec_visit_range(range.start as int, range.end as int).1,
    {
        let mut events: Vec<Event> = Vec::new();
        let n = self.tape.structural.len();
        let input = self.input.as_slice();
        let len = input.len();
        let start = range.start;
        let end = range.end;
        if start == 0 || end > n - 1 {
            proof {
                assert(events_view(events@) =~= Seq::<SpecEvent>::empty());
            }
            return (events, Err(Error::IndexOutOfRange));
        }
        let mut prev: usize = if start == 1 {
            0
        } else {
            let sv = self.tape.structural.get(start - 1);
            if sv < 0 {
                proof {
                    assert(events_view(events@) =~= Seq::<SpecEvent>::empty());
                }
                return (events, Err(Error::IndexOutOfRange));
            }
            sv as usize
        };
        let region_end: usize = if end == n - 1 {
            len
        } else {
            let sv = self.tape.structural.get(end - 1);
            if sv < 0 || sv as usize > len {
                len
            } else {
                sv as usize
            }
        };
        proof {
            assert(events_view(events@) =~= Seq::<SpecEvent>::empty());
        }
        if prev > region_end {
            return (events, Err(Error::IndexOutOfRange));
        }
        if !is_valid_utf8(vstd::slice::slice_subrange(input, prev, region_end)) {
            return (events, Err(Error::InvalidUtf8));
        }
        let ghost init = VisitState { events: Seq::empty(), prev: prev as int, depth: 0, err: None };
        let mut depth: usize = 0;
        let mut k = start;
        while k < end
            invariant
                n == self.total(),
                len == self.input@.len(),
                len <= isize::MAX,
                input@ == self.input@,
                1 <= start <= k <= end <= n - 1,
                region_end == self.region_end(end as int),
                region_end <= len,
                prev <= len,
                depth <= k,
                start == range.start,
                end == range.end,
                self.spec_visit_range(start as int, end as int) == self.finish_range(
                    self.visit_fold(init, start as int, end as int, region_end as int),
                    end as int,
                ),
                self.visit_fold(init, start as int, end as int, region_end as int)
                    == self.visit_fold(
                    VisitState {
                        events: events_view(events@),
                        prev: prev as int,
                        depth: depth as int,
                        err: None,
                    },
                    k as int,
                    end as int,
                    region_end as int,
                ),
            decreases end - k,
        {
            let ghost st = VisitState {
                events: events_view(events@),
                prev: prev as int,
                depth: depth as int,
                err: None,
            };
            let p = self.tape.structural.get(k);
            let ghost next = self.visit_step(st, p, region_end as int);
            proof {
                assert(self.visit_fold(st, k as int, end as int, region_end as int)
                    == self.visit_fold(next, k + 1, end as int, region_end as int));
                if next.err is Some {
                    lemma_fold_err(self, next, k + 1, end as int, region_end as int);
                }
            }
            match self.visit_entry(&mut events, prev, depth, p, region_end) {
                Ok((np, nd)) => {
                    prev = np;
                    depth = nd;
                },
                Err(e) => {
                    return (events, Err(e));
                },
            }
            k += 1;
        }
        let ghost st = VisitState {
            events: events_view(events@),
            prev: prev as int,
            depth: depth as int,
            err: None,
        };
        if end == n - 1 {
            let from = if prev > len {
                len
            } else {
                prev
            };
            let raw = trim_ascii(vstd::slice::slice_subrange(input, from, len));
            if raw.len() != 0 {
                match scalar(raw) {
                    Ok(e) => {
                        events.push(e);
                    },
                    Err(e) => {
                        return (events, Err(e));
                    },
                }
            }
        }
        proof {
            assert(events_view(events@) =~= (if end == n - 1 {
                with_scalar(
                    st,
                    trim_ws(
                        self.input@.subrange(
                            if st.prev > len {
                                len as int
                            } else {
                                st.prev
                            },
                            len as int,
                        ),
                    ),
                )
            } else {
                st
            }).events);
        }
        if depth != 0 {
            return (events, Err(Error::UnbalancedBrackets));
        }
        (events, Ok(()))
    }
}

/// Hands `events` to `v`, in order.
fn replay<V: Visitor>(events: &Vec<Event>, v: &mut V)
    ensures
        final(v).received() == old(v).received() + events_view(events@),
{
    let n = events.len();
    let mut i: usize = 0;
    while i < n
        invariant
            n == events@.len(),
            0 <= i <= n,
            v.received() == old(v).received() + events_view(events@.take(i as int)),
        decreases n - i,
    {
        proof {
            assert(events@.take(i + 1) =~= events@.take(i as int).push(events@[i as int]));
            assert(events_view(events@.take(i + 1)) =~= events_view(events@.take(i as int)).push(
                events@[i as int]@,
            ));
        }
        match &events[i] {
            Event::BeginObject => v.begin_object(),
            Event::EndObject => v.end_object(),
            Event::BeginArray => v.begin_array(),
            Event::EndArray => v.end_array(),
            Event::Key(s) => v.key(s.as_str()),
            Event::Str(s) => v.string(s.as_str()),
            Event::Number(b) => v.number(b.as_slice()),
            Event::Bool(b) => v.boolean(*b),
            Event::Null => v.null(),
        }
        i += 1;
    }
    assert(events@.take(n as int) =~= events@);
}

impl Document {
    /// Events and outcome of visiting every value once, front to back. On
    /// an error, the events before it are kept.
    pub fn events(&self) -> (res: (Vec<Event>, Result<(), Error>))
        requires
            self.total() >= 1,
            self.input@.len() <= isize::MAX,
        ensures
            events_view(res.0@) == self.spec_visit().0,
            res.1 == self.spec_visit().1,
    {
        let n = self.tape.structural.len();
        if n <= 2 {
            let mut events: Vec<Event> = Vec::new();
            let raw = trim_ascii(self.input.as_slice());
            if !is_valid_utf8(self.input.as_slice()) {
                assert(events_view(events@) =~= Seq::<SpecEvent>::empty());
                return (events, Err(Error::InvalidUtf8));
            }
            if raw.len() == 0 {
                assert(events_view(events@) =~= Seq::<SpecEvent>::empty());
                return (events, Ok(()));
            }
            match scalar(raw) {
                Ok(e) => {
                    events.push(e);
                    assert(events_view(events@) =~= seq![e@]);
                    return (events, Ok(()));
                },
                Err(e) => {
                    assert(events_view(events@) =~= Seq::<SpecEvent>::empty());
                    return (events, Err(e));
                },
            }
        }
        self.events_range(1..n - 1)
    }

    /// Walk every value once, front to back, reading `structural` and the
    /// input sequentially and handing each event to `v` (the events of
    /// `events()`, in order). Unlike `Node` navigation this never reads
    /// `pair_pos`. For a JSON Lines document the top-level values are
    /// visited in line order, blank lines skipped.
    pub fn visit<V: Visitor>(&self, v: &mut V) -> (r: Result<(), Error>)
        requires
            self.total() >= 1,
            self.input@.len() <= isize::MAX,
        ensures
            r == self.spec_visit().1,
            final(v).received() == old(v).received() + self.spec_visit().0,
    {
        let (events, r) = self.events();
        replay(&events, v);
        r
    }

    /// `visit` over the tape entries `range` (indices into `structural`,
    /// within `1..len-1`), as returned by `split_lines`: hands the events
    /// of `events_range(range)` to `v`, in order.
    pub fn visit_range<V: Visitor>(&self, range: Range<usize>, v: &mut V) -> (r: Result<(), Error>)
        requires
            self.total() >= 1,
            range.start <= range.end,
            self.input@.len() <= isize::MAX,
        ensures
            r == self.spec_visit_range(range.start as int, range.end as int).1,
            final(v).received() == old(v).received() + self.spec_visit_range(
                range.start as int,
                range.end as int,
            ).0,
    {
        let (events, r) = self.events_range(range);
        replay(&events, v);
        r
    }
}

/// Splits `1..n-1` at one past each delimiter of `delims` that ends a
/// piece of at least `target` entries; the last piece runs to `n - 1`.
pub open spec fn split_fold(delims: Seq<int>, start: int, target: int, n: int) -> Seq<(int, int)>
    decreases delims.len(),
{
    if delims.len() == 0 {
        seq![(start, n - 1)]
    } else {
        let next = delims[0] + 1;
        if next < n - 1 && next - start >= target {
            seq![(start, next)] + split_fold(delims.drop_first(), next, target, n)
        } else {
            split_fold(delims.drop_first(), start, target, n)
        }
    }
}

/// `a` divided by `b`, rounded up.
pub open spec fn ceil_div(a: int, b: int) -> int {
    if a % b == 0 {
        a / b
    } else {
        a / b + 1
    }
}

/// The views of a sequence of ranges.
pub open spec fn ranges_view(v: Seq<Range<usize>>) -> Seq<(int, int)> {
    v.map_values(|r: Range<usize>| (r.start as int, r.end as int))
}

impl Document {
    /// The tape entries that end the top-level values, from the entry
    /// `delim` on: after each value (a container's closer, hopped to with
    /// `pair_pos`, or a scalar) comes the delimiter that ends it. Stops at
    /// the artificial close, or where the tape does not move forward.
    pub open spec fn spec_top_delims(&self, delim: int) -> Seq<int>
        decreases self.total() - delim,
    {
        if delim < 0 || delim >= self.total() - 1 {
            Seq::empty()
        } else {
            let nd = spec_next(self.spec_read_value(delim));
            if delim < nd < self.total() - 1 {
                seq![nd] + self.spec_top_delims(nd)
            } else {
                Seq::empty()
            }
        }
    }

    /// The ranges `split_lines(parts)` returns.
    pub open spec fn spec_split_lines(&self, parts: int) -> Seq<(int, int)> {
        let n = self.total();
        if n <= 2 {
            seq![(1, n - 1)]
        } else {
            let p = if parts < 1 {
                1
            } else {
                parts
            };
            split_fold(self.spec_top_delims(0), 1, ceil_div(n - 2, p), n)
        }
    }

    /// Split the tape into at most `parts` ranges of similar size, each a
    /// whole number of top-level values (lines), for `visit_range` on
    /// separate threads. Hops between lines with `pair_pos`, which is
    /// defined at openers.
    pub fn split_lines(&self, parts: usize) -> (v: Vec<Range<usize>>)
        requires
            self.total() >= 1,
            self.tape.pair_pos@.len() == self.total(),
        ensures
            ranges_view(v@) == self.spec_split_lines(parts as int),
            1 <= v@.len() <= (if parts < 1 {
                1
            } else {
                parts as int
            }),
            v@[0].start == 1,
            v@.last().end == self.total() - 1,
            forall|k: int| 0 <= k < v@.len() - 1 ==> (#[trigger] v@[k]).end == v@[k + 1].start,
            self.total() > 2 ==> forall|k: int|
                0 <= k < v@.len() ==> (#[trigger] v@[k]).start < v@[k].end,
    {
        let n = self.tape.structural.len();
        let mut out: Vec<Range<usize>> = Vec::new();
        if n <= 2 {
            out.push(1..n - 1);
            assert(ranges_view(out@) =~= seq![(1int, n - 1)]);
            return out;
        }
        let p: usize = if parts < 1 {
            1
        } else {
            parts
        };
        let a = n - 2;
        let target: usize = if a % p == 0 {
            a / p
        } else {
            a / p + 1
        };
        assert(target * p >= a) by (nonlinear_arith)
            requires
                p >= 1,
                target == (if a % p == 0 {
                    (a / p) as int
                } else {
                    a / p + 1
                }),
        ;
        assert(target >= 1) by (nonlinear_arith)
            requires
                p >= 1,
                a >= 1,
                target * p >= a,
        ;
        let mut start: usize = 1;
        let mut delim: usize = 0;
        let ghost all = self.spec_top_delims(0);
        proof {
            assert(ranges_view(out@) + split_fold(all, 1, target as int, n as int) =~= split_fold(
                all,
                1,
                target as int,
                n as int,
            ));
        }
        while delim < n - 1
            invariant
                n == self.total(),
                n > 2,
                self.tape.pair_pos@.len() == n,
                1 <= start < n - 1,
                start <= delim + 1,
                target >= 1,
                target == ceil_div(n - 2, p as int),
                p == (if parts < 1 {
                    1
                } else {
                    parts
                }),
                target * p >= n - 2,
                p >= 1,
                ranges_view(out@) + split_fold(
                    self.spec_top_delims(delim as int),
                    start as int,
                    target as int,
                    n as int,
                ) == split_fold(all, 1, target as int, n as int),
                all == self.spec_top_delims(0),
                out@.len() * target <= start - 1,
                out@.len() > 0 ==> out@[0].start == 1,
                out@.len() > 0 ==> out@.last().end == start,
                out@.len() == 0 ==> start == 1,
                forall|k: int| 0 <= k < out@.len() - 1 ==> (#[trigger] out@[k]).end == out@[k + 1].start,
                forall|k: int| 0 <= k < out@.len() ==> (#[trigger] out@[k]).start < out@[k].end,
            ensures
                self.spec_top_delims(delim as int) =~= Seq::<int>::empty(),
            decreases n - delim,
        {
            let r = self.read_value(delim);
            let nd = match r {
                NodeRepr::Container { close: c, .. } => {
                    if c >= n {
                        n
                    } else {
                        c + 1
                    }
                },
                NodeRepr::Scalar { hi, .. } => hi,
            };
            if !(delim < nd && nd < n - 1) {
                proof {
                    assert(self.spec_top_delims(delim as int) =~= Seq::<int>::empty());
                }
                break;
            }
            let next = nd + 1;
            let ghost rest = self.spec_top_delims(nd as int);
            proof {
                assert(self.spec_top_delims(delim as int) == seq![nd as int] + rest);
                assert((seq![nd as int] + rest).drop_first() =~= rest);
            }
            if next < n - 1 && next - start >= target {
                let ghost before = out@;
                out.push(start..next);
                proof {
                    assert(ranges_view(out@) =~= ranges_view(before).push((start as int, next as int)));
                    assert(ranges_view(before).push((start as int, next as int)) + split_fold(
                        rest,
                        next as int,
                        target as int,
                        n as int,
                    ) =~= ranges_view(before) + (seq![(start as int, next as int)] + split_fold(
                        rest,
                        next as int,
                        target as int,
                        n as int,
                    )));
                    assert((out@.len() as int) * target == (before.len() as int) * target
                        + target) by (nonlinear_arith)
                        requires
                            out@.len() == before.len() + 1,
                    ;
                }
                start = next;
            }
            delim = nd;
        }
        let ghost before = out@;
        out.push(start..n - 1);
        proof {
            if delim >= n - 1 {
                assert(self.spec_top_delims(delim as int) =~= Seq::<int>::empty());
            }
            assert(split_fold(self.spec_top_delims(delim as int), start as int, target as int, n as int)
                == seq![(start as int, n - 1)]);
            assert(ranges_view(out@) =~= ranges_view(before).push((start as int, n - 1)));
            assert(ranges_view(before).push((start as int, n - 1)) =~= ranges_view(before) + seq![
                (start as int, n - 1),
            ]);
            assert(before.len() < p) by (nonlinear_arith)
                requires
                    (before.len() as int) * target <= start - 1,
                    start < n - 1,
                    target * p >= n - 2,
                    target >= 1,
            ;
        }
        out
    }
}


/// `st` with `e` in front of its events.
pub open spec fn prefixed(e: Seq<SpecEvent>, st: VisitState) -> VisitState {
    VisitState { events: e + st.events, ..st }
}

proof fn lemma_with_scalar_prefixed(e: Seq<SpecEvent>, st: VisitState, raw: Seq<u8>)
    ensures
        with_scalar(prefixed(e, st), raw) == prefixed(e, with_scalar(st, raw)),
{
    if raw.len() > 0 {
        if let Ok(x) = scalar_event(raw) {
            assert((e + st.events).push(x) =~= e + st.events.push(x));
        }
    }
}

/// The events a visit step adds do not depend on the events before it.
proof fn lemma_step_prefixed(doc: &Document, e: Seq<SpecEvent>, st: VisitState, p: i32, re: int)
    ensures
        doc.visit_step(prefixed(e, st), p, re) == prefixed(e, doc.visit_step(st, p, re)),
{
    reveal(Document::visit_step);
    let pos = p - 1;
    if st.err is None && pos >= st.prev && pos < (if re < 1 {
        1
    } else {
        re
    }) && pos < doc.input@.len() {
        let raw = trim_ws(doc.input@.subrange(st.prev, pos));
        lemma_with_scalar_prefixed(e, st, raw);
        assert forall|x: SpecEvent| (e + st.events).push(x) =~= e + st.events.push(x) by {}
        let s2 = with_scalar(st, raw);
        assert forall|x: SpecEvent| (e + s2.events).push(x) =~= e + s2.events.push(x) by {}
    }
}

proof fn lemma_fold_prefixed(
    doc: &Document,
    e: Seq<SpecEvent>,
    st: VisitState,
    k: int,
    end: int,
    re: int,
)
    ensures
        doc.visit_fold(prefixed(e, st), k, end, re) == prefixed(e, doc.visit_fold(st, k, end, re)),
    decreases end - k,
{
    if k < end {
        let p = doc.tape.structural@[k];
        lemma_step_prefixed(doc, e, st, p, re);
        lemma_fold_prefixed(doc, e, doc.visit_step(st, p, re), k + 1, end, re);
    }
}

/// Folding over `k..end` is folding over `k..mid`, then over `mid..end`.
pub(crate) proof fn lemma_fold_split(doc: &Document, st: VisitState, k: int, mid: int, end: int, re: int)
    requires
        k <= mid <= end,
    ensures
        doc.visit_fold(st, k, end, re) == doc.visit_fold(doc.visit_fold(st, k, mid, re), mid, end, re),
    decreases mid - k,
{
    if k < mid {
        lemma_fold_split(doc, doc.visit_step(st, doc.tape.structural@[k], re), k + 1, mid, end, re);
    }
}

/// A fold that succeeds within a region succeeds the same way within a
/// larger one, and leaves `prev` just past its last entry.
proof fn lemma_fold_wider(doc: &Document, st: VisitState, k: int, end: int, re1: int, re2: int)
    requires
        re1 <= re2,
        doc.visit_fold(st, k, end, re1).err is None,
    ensures
        doc.visit_fold(st, k, end, re2) == doc.visit_fold(st, k, end, re1),
        k < end ==> doc.visit_fold(st, k, end, re1).prev == doc.tape.structural@[end - 1] as int,
    decreases end - k,
{
    if k < end {
        let p = doc.tape.structural@[k];
        let s1 = doc.visit_step(st, p, re1);
        if s1.err is Some {
            lemma_fold_err(doc, s1, k + 1, end, re1);
        }
        assert(doc.visit_step(st, p, re2) == s1) by {
            reveal(Document::visit_step);
        }
        assert(s1.prev == p as int) by {
            reveal(Document::visit_step);
        }
        lemma_fold_wider(doc, s1, k + 1, end, re1, re2);
    }
}

proof fn lemma_finish_prefixed(doc: &Document, e: Seq<SpecEvent>, st: VisitState, end: int)
    ensures
        doc.finish_range(prefixed(e, st), end) == (
            e + doc.finish_range(st, end).0,
            doc.finish_range(st, end).1,
        ),
{
    let n = doc.total();
    if st.err is None && end == n - 1 {
        let from = if st.prev > doc.input@.len() {
            doc.input@.len() as int
        } else {
            st.prev
        };
        lemma_with_scalar_prefixed(e, st, trim_ws(doc.input@.subrange(from, doc.input@.len() as int)));
    }
}

/// Visiting two adjacent ranges of tape entries one after the other gives,
/// when both succeed, what visiting their union gives: the same events,
/// in order, and success.
pub proof fn lemma_visit_range_concat(doc: &Document, a: int, b: int, c: int)
    requires
        1 <= a < b < c,
        doc.spec_visit_range(a, b).1 is Ok,
        doc.spec_visit_range(b, c).1 is Ok,
    ensures
        doc.spec_visit_range(a, c) == (
            doc.spec_visit_range(a, b).0 + doc.spec_visit_range(b, c).0,
            Ok::<(), Error>(()),
        ),
{
    let n = doc.total();
    let input = doc.input@;
    let pa = doc.region_start(a)->Some_0;
    let s = doc.tape.structural@[b - 1] as int;
    assert(doc.region_start(b) == Some(s));
    let re_b = doc.region_end(b);
    let re_c = doc.region_end(c);
    assert(s <= re_c);
    assert(re_b == s);
    let init_a = VisitState { events: Seq::empty(), prev: pa, depth: 0, err: None };
    let init_b = VisitState { events: Seq::empty(), prev: s, depth: 0, err: None };
    let fold1 = doc.visit_fold(init_a, a, b, s);
    let fold2 = doc.visit_fold(init_b, b, c, re_c);
    assert(fold1.err is None);
    lemma_fold_wider(doc, init_a, a, b, s, re_c);
    assert(fold1 == prefixed(fold1.events, init_b)) by {
        assert(fold1.events + Seq::<SpecEvent>::empty() =~= fold1.events);
    }
    lemma_fold_split(doc, init_a, a, b, c, re_c);
    lemma_fold_prefixed(doc, fold1.events, init_b, b, c, re_c);
    lemma_finish_prefixed(doc, fold1.events, fold2, c);
    assert(input.subrange(pa, re_c) =~= input.subrange(pa, s) + input.subrange(s, re_c));
    vstd::utf8::valid_utf8_concat(input.subrange(pa, s), input.subrange(s, re_c));
}

/// The events of visiting each range of `rs` in turn, concatenated.
pub open spec fn ranges_events(doc: &Document, rs: Seq<(int, int)>) -> Seq<SpecEvent>
    decreases rs.len(),
{
    if rs.len() == 0 {
        Seq::empty()
    } else {
        ranges_events(doc, rs.drop_last()) + doc.spec_visit_range(rs.last().0, rs.last().1).0
    }
}

/// Whether the ranges `rs` tile the entries from `1` to `end`, each
/// non-empty and starting where the one before ends.
pub open spec fn tiles(rs: Seq<(int, int)>, end: int) -> bool {
    &&& rs.len() >= 1
    &&& rs[0].0 == 1
    &&& rs.last().1 == end
    &&& forall|k: int| 0 <= k < rs.len() ==> (#[trigger] rs[k]).0 < rs[k].1
    &&& forall|k: int| 0 <= k < rs.len() - 1 ==> (#[trigger] rs[k]).1 == rs[k + 1].0
}

pub(crate) proof fn lemma_tiles_prefix(rs: Seq<(int, int)>, end: int)
    requires
        tiles(rs, end),
        rs.len() >= 2,
    ensures
        tiles(rs.drop_last(), rs[rs.len() - 2].1),
        rs[rs.len() - 2].1 == rs.last().0,
        rs[0].0 <= rs[rs.len() - 2].0,
{
    let d = rs.drop_last();
    assert forall|k: int| 0 <= k < d.len() implies (#[trigger] d[k]).0 < d[k].1 by {
        assert(d[k] == rs[k]);
    }
    assert forall|k: int| 0 <= k < d.len() - 1 implies (#[trigger] d[k]).1 == d[k + 1].0 by {
        assert(d[k] == rs[k]);
        assert(d[k + 1] == rs[k + 1]);
    }
    lemma_tiles_starts(rs, end, rs.len() - 2);
}

proof fn lemma_tiles_starts(rs: Seq<(int, int)>, end: int, k: int)
    requires
        tiles(rs, end),
        0 <= k < rs.len(),
    ensures
        1 <= rs[k].0,
        rs[0].0 <= rs[k].0,
    decreases k,
{
    if k > 0 {
        lemma_tiles_starts(rs, end, k - 1);
        assert(rs[k - 1].0 < rs[k - 1].1);
    }
}

/// Visiting, one after the other, ranges that tile the real entries of a
/// tape (as `split_lines` returns them), when each visit succeeds, yields
/// exactly the events of visiting the whole document, which succeeds.
pub proof fn lemma_visit_tiles(doc: &Document, rs: Seq<(int, int)>)
    requires
        doc.total() > 2,
        tiles(rs, doc.total() - 1),
        forall|k: int| 0 <= k < rs.len() ==> (#[trigger] doc.spec_visit_range(rs[k].0, rs[k].1)).1 is Ok,
    ensures
        doc.spec_visit() == (ranges_events(doc, rs), Ok::<(), Error>(())),
{
    lemma_visit_tiles_prefix(doc, rs, doc.total() - 1);
}

proof fn lemma_visit_tiles_prefix(doc: &Document, rs: Seq<(int, int)>, end: int)
    requires
        tiles(rs, end),
        forall|k: int| 0 <= k < rs.len() ==> (#[trigger] doc.spec_visit_range(rs[k].0, rs[k].1)).1 is Ok,
    ensures
        doc.spec_visit_range(1, end) == (ranges_events(doc, rs), Ok::<(), Error>(())),
    decreases rs.len(),
{
    if rs.len() == 1 {
        assert(ranges_events(doc, rs.drop_last()) == Seq::<SpecEvent>::empty());
        assert(Seq::<SpecEvent>::empty() + doc.spec_visit_range(1, end).0 =~= doc.spec_visit_range(
            1,
            end,
        ).0);
        assert(doc.spec_visit_range(rs[0].0, rs[0].1).1 is Ok);
    } else {
        let d = rs.drop_last();
        let b = rs[rs.len() - 2].1;
        lemma_tiles_prefix(rs, end);
        assert forall|k: int| 0 <= k < d.len() implies (#[trigger] doc.spec_visit_range(
            d[k].0,
            d[k].1,
        )).1 is Ok by {
            assert(d[k] == rs[k]);
        }
        lemma_visit_tiles_prefix(doc, d, b);
        lemma_tiles_starts(rs, end, rs.len() - 2);
        assert(doc.spec_visit_range(rs.last().0, rs.last().1).1 is Ok);
        lemma_visit_range_concat(doc, 1, b, end);
    }
}


/// With no real entries, visiting the one (empty) range `1..1` that
/// `split_lines` returns is visiting the whole document.
pub proof fn lemma_visit_without_entries(doc: &Document)
    requires
        doc.total() == 2,
    ensures
        doc.spec_visit_range(1, 1) == doc.spec_visit(),
{
    let input = doc.input@;
    assert(input.subrange(0, input.len() as int) =~= input);
    let st = VisitState { events: Seq::empty(), prev: 0, depth: 0, err: None };
    assert(doc.visit_fold(st, 1, 1, input.len() as int) == st);
    let raw = trim_ws(input);
    if raw.len() > 0 {
        if let Ok(e) = scalar_event(raw) {
            assert(Seq::<SpecEvent>::empty().push(e) =~= seq![e]);
        }
    }
}


proof fn lemma_fold_same(d1: &Document, d2: &Document, st: VisitState, k: int, end: int, re: int)
    requires
        d1.input@ == d2.input@,
        d1.tape.structural@ == d2.tape.structural@,
    ensures
        d1.visit_fold(st, k, end, re) == d2.visit_fold(st, k, end, re),
    decreases end - k,
{
    if k < end {
        let p = d1.tape.structural@[k];
        assert(d1.visit_step(st, p, re) == d2.visit_step(st, p, re)) by {
            reveal(Document::visit_step);
        }
        lemma_fold_same(d1, d2, d1.visit_step(st, p, re), k + 1, end, re);
    }
}

/// A visit never reads `pair_pos`: two documents with the same input and
/// `structural` array visit every range, and the whole document, alike.
pub proof fn lemma_visit_ignores_pair_pos(d1: &Document, d2: &Document)
    requires
        d1.input@ == d2.input@,
        d1.tape.structural@ == d2.tape.structural@,
    ensures
        d1.spec_visit() == d2.spec_visit(),
        forall|a: int, b: int| #[trigger] d1.spec_visit_range(a, b) == d2.spec_visit_range(a, b),
{
    assert forall|a: int, b: int| #[trigger] d1.spec_visit_range(a, b) == d2.spec_visit_range(a, b) by {
        if let Some(prev) = d1.region_start(a) {
            let re = d1.region_end(b);
            lemma_fold_same(
                d1,
                d2,
                VisitState { events: Seq::empty(), prev, depth: 0, err: None },
                a,
                b,
                re,
            );
        }
    }
    assert(d1.spec_visit_range(1, d1.total() - 1) == d2.spec_visit_range(1, d2.total() - 1));
}

/// How an event changes the nesting: a begin opens a container, an end
/// closes one, anything else leaves it.
pub open spec fn nesting_delta(e: SpecEvent) -> int {
    match e {
        SpecEvent::BeginObject | SpecEvent::BeginArray => 1,
        SpecEvent::EndObject | SpecEvent::EndArray => -1,
        _ => 0,
    }
}

/// The number of containers the events `es` leave open.
pub open spec fn nesting(es: Seq<SpecEvent>) -> int
    decreases es.len(),
{
    if es.len() == 0 {
        0
    } else {
        nesting(es.drop_last()) + nesting_delta(es.last())
    }
}

/// Whether no prefix of `es` closes more containers than it opened.
pub open spec fn well_nested(es: Seq<SpecEvent>) -> bool
    decreases es.len(),
{
    es.len() == 0 || (well_nested(es.drop_last()) && nesting(es) >= 0)
}

/// The state of a visit in progress counts its open containers.
pub open spec fn counts_open(st: VisitState) -> bool {
    st.err is None ==> (st.depth == nesting(st.events) && well_nested(st.events))
}

proof fn lemma_push_nesting(es: Seq<SpecEvent>, e: SpecEvent)
    requires
        well_nested(es),
        nesting(es) + nesting_delta(e) >= 0,
    ensures
        nesting(es.push(e)) == nesting(es) + nesting_delta(e),
        well_nested(es.push(e)),
{
    assert(es.push(e).drop_last() =~= es);
    assert(es.push(e).last() == e);
}

proof fn lemma_with_scalar_counts(st: VisitState, raw: Seq<u8>)
    requires
        counts_open(st),
        st.err is None,
    ensures
        counts_open(with_scalar(st, raw)),
        with_scalar(st, raw).depth == st.depth,
{
    if raw.len() > 0 {
        if let Ok(x) = scalar_event(raw) {
            assert(nesting_delta(x) == 0);
            lemma_push_nesting(st.events, x);
        }
    }
}

proof fn lemma_step_counts(doc: &Document, st: VisitState, p: i32, re: int)
    requires
        counts_open(st),
    ensures
        counts_open(doc.visit_step(st, p, re)),
{
    reveal(Document::visit_step);
    let pos = p - 1;
    if st.err is None && pos >= st.prev && pos < (if re < 1 {
        1
    } else {
        re
    }) && pos < doc.input@.len() {
        let raw = trim_ws(doc.input@.subrange(st.prev, pos));
        let c = doc.input@[pos];
        if c == LBRACE {
            lemma_push_nesting(st.events, SpecEvent::BeginObject);
        } else if c == LBRACKET {
            lemma_push_nesting(st.events, SpecEvent::BeginArray);
        } else if c == COLON {
            if let Ok(k) = unquote_spec(raw) {
                lemma_push_nesting(st.events, SpecEvent::Key(k));
            }
        } else if c == COMMA || c == NEWLINE {
            lemma_with_scalar_counts(st, raw);
        } else if c == RBRACE || c == RBRACKET {
            lemma_with_scalar_counts(st, raw);
            let s2 = with_scalar(st, raw);
            if s2.err is None && s2.depth != 0 {
                lemma_push_nesting(s2.events, SpecEvent::EndObject);
                lemma_push_nesting(s2.events, SpecEvent::EndArray);
            }
        }
    }
}

proof fn lemma_fold_counts(doc: &Document, st: VisitState, k: int, end: int, re: int)
    requires
        counts_open(st),
    ensures
        counts_open(doc.visit_fold(st, k, end, re)),
    decreases end - k,
{
    if k < end {
        lemma_step_counts(doc, st, doc.tape.structural@[k], re);
        lemma_fold_counts(doc, doc.visit_step(st, doc.tape.structural@[k], re), k + 1, end, re);
    }
}

/// A successful visit of a range of tape entries closes every container it
/// opens, and never closes one it did not open.
pub proof fn lemma_visit_range_nested(doc: &Document, start: int, end: int)
    requires
        doc.spec_visit_range(start, end).1 is Ok,
    ensures
        well_nested(doc.spec_visit_range(start, end).0),
        nesting(doc.spec_visit_range(start, end).0) == 0,
{
    let prev = doc.region_start(start)->Some_0;
    let re = doc.region_end(end);
    let st0 = VisitState { events: Seq::empty(), prev, depth: 0, err: None };
    lemma_fold_counts(doc, st0, start, end, re);
    let st = doc.visit_fold(st0, start, end, re);
    let n = doc.total();
    if end == n - 1 {
        let from = if st.prev > doc.input@.len() {
            doc.input@.len() as int
        } else {
            st.prev
        };
        lemma_with_scalar_counts(st, trim_ws(doc.input@.subrange(from, doc.input@.len() as int)));
    }
}

/// A fold whose entries all lie before the byte `re1` goes the same way
/// within any region ending at or after `re1`.
pub(crate) proof fn lemma_fold_narrower(
    doc: &Document,
    st: VisitState,
    k: int,
    end: int,
    re1: int,
    re2: int,
)
    requires
        re1 <= re2,
        forall|j: int| k <= j < end ==> #[trigger] doc.tape.structural@[j] <= re1,
    ensures
        doc.visit_fold(st, k, end, re1) == doc.visit_fold(st, k, end, re2),
    decreases end - k,
{
    if k < end {
        let p = doc.tape.structural@[k];
        assert(doc.visit_step(st, p, re1) == doc.visit_step(st, p, re2)) by {
            reveal(Document::visit_step);
        }
        lemma_fold_narrower(doc, doc.visit_step(st, p, re1), k + 1, end, re1, re2);
    }
}

} // verus!
