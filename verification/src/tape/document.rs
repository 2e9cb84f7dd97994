//! `Document`/`Node` navigator over a `Tape`.

use vstd::prelude::*;
use vstd::string::StringSliceAdditionalSpecFns;
use vstd::utf8::valid_utf8;

use super::error::Error;
use super::storage::Tape;
use super::text::{
    bytes_eq, decimal, is_ascii_whitespace, is_ascii_ws, is_digit, lemma_decimal_digits, parse_i64, parse_usize, parse_usize_spec, SLASH, parse_i64_spec, string_from_utf8, trim_ascii, trim_ws, unescape,
    unescape_bytes, unescape_spec, COMMA, LBRACE, LBRACKET, NEWLINE, QUOTE, RBRACE, RBRACKET,
};

verus! {

/// The kind of JSON value a `Node` represents.
#[derive(Debug, Clone, Copy, PartialEq, Eq, Structural)]
pub enum Kind {
    Object,
    Array,
    String,
    Number,
    Bool,
    Null,
}

/// Where a value sits on the tape: a container is delimited by its two
/// bracket entries; a scalar's bytes lie strictly between the structural
/// entries `lo` and `hi`.
#[derive(Debug, Clone, Copy, PartialEq, Eq, Structural)]
pub enum NodeRepr {
    Container { open: usize, close: usize, kind: Kind },
    Scalar { lo: usize, hi: usize },
}

/// A parsed document: the raw input bytes plus its tape.
#[derive(Debug, Clone)]
pub struct Document {
    pub input: Vec<u8>,
    pub tape: Tape,
}

/// A value within a `Document`'s tape: an object, array, or scalar.
#[derive(Debug, Clone, Copy)]
pub struct Node<'d> {
    pub doc: &'d Document,
    pub repr: NodeRepr,
}

pub open spec fn is_opener_byte(c: u8) -> bool {
    c == LBRACE || c == LBRACKET
}

/// The closing bracket matching the opening bracket `c`.
pub open spec fn closer_byte(c: u8) -> u8 {
    if c == LBRACE {
        RBRACE
    } else {
        RBRACKET
    }
}

/// The tape index just past a value: after a container's closer, or the
/// structural entry ending a scalar.
pub open spec fn spec_next(r: NodeRepr) -> int {
    match r {
        NodeRepr::Container { close, .. } => close + 1,
        NodeRepr::Scalar { hi, .. } => hi as int,
    }
}

/// The kind of a scalar, from its first byte.
pub open spec fn scalar_kind_spec(bytes: Seq<u8>) -> Kind {
    if bytes.len() == 0 {
        Kind::Number
    } else if bytes[0] == QUOTE {
        Kind::String
    } else if bytes[0] == 0x74u8 || bytes[0] == 0x66u8 {
        Kind::Bool
    } else if bytes[0] == 0x6Eu8 {
        Kind::Null
    } else {
        Kind::Number
    }
}

/// The kind of a scalar, from its first byte.
pub fn scalar_kind(bytes: &[u8]) -> (k: Kind)
    ensures
        k == scalar_kind_spec(bytes@),
{
    if bytes.len() == 0 {
        Kind::Number
    } else if bytes[0] == QUOTE {
        Kind::String
    } else if bytes[0] == 0x74 || bytes[0] == 0x66 {
        Kind::Bool
    } else if bytes[0] == 0x6E {
        Kind::Null
    } else {
        Kind::Number
    }
}

impl Document {
    /// Number of tape entries.
    pub open spec fn total(&self) -> int {
        self.tape.structural@.len() as int
    }

    /// The character tape index `i` reads as: `[` and `]` for the two
    /// artificial entries, otherwise the input byte at the entry's 1-based
    /// offset, with a newline read as `,`; `0` when out of range.
    pub open spec fn spec_char(&self, i: int) -> u8 {
        if i < 0 || i >= self.total() {
            0
        } else if i == 0 {
            LBRACKET
        } else if i + 1 == self.total() {
            RBRACKET
        } else {
            let pos = self.tape.structural@[i] - 1;
            if pos < 0 || pos >= self.input@.len() {
                0
            } else if self.input@[pos] == NEWLINE {
                COMMA
            } else {
                self.input@[pos]
            }
        }
    }

    /// 0-based byte position of tape index `i`, with one-before-the-start
    /// and one-past-the-end for the two artificial entries.
    pub open spec fn spec_byte_pos(&self, i: int) -> int {
        if i == 0 {
            -1
        } else if i + 1 == self.total() {
            self.input@.len() as int
        } else {
            self.tape.structural@[i] - 1
        }
    }

    /// `pair_pos[i]`, read as an index (negative values as `0`).
    pub open spec fn spec_pair(&self, i: int) -> int {
        let p = self.tape.pair_pos@[i];
        if p < 0 {
            0
        } else {
            p as int
        }
    }

    /// The whitespace-trimmed input bytes strictly between the structural
    /// entries `lo` and `hi`.
    pub open spec fn spec_scalar_bytes(&self, lo: int, hi: int) -> Seq<u8> {
        let start = self.spec_byte_pos(lo) + 1;
        let end = if self.spec_byte_pos(hi) < start {
            start
        } else {
            self.spec_byte_pos(hi)
        };
        trim_ws(self.input@.subrange(start, end))
    }

    /// The value that follows the structural entry `delim`: the container
    /// opened by the next entry, or the scalar between `delim` and it.
    pub open spec fn spec_read_value(&self, delim: int) -> NodeRepr {
        let peek = self.spec_char(delim + 1);
        if is_opener_byte(peek) {
            NodeRepr::Container {
                open: (delim + 1) as usize,
                close: self.spec_pair(delim + 1) as usize,
                kind: if peek == LBRACE {
                    Kind::Object
                } else {
                    Kind::Array
                },
            }
        } else {
            NodeRepr::Scalar { lo: delim as usize, hi: (delim + 1) as usize }
        }
    }

    /// The values found one after another from the delimiter `delim` up to
    /// the entry `close`.
    pub open spec fn spec_walk(&self, delim: int, close: int) -> Seq<NodeRepr>
        decreases close - delim,
    {
        if delim >= close {
            Seq::empty()
        } else {
            let r = self.spec_read_value(delim);
            let nd = spec_next(r);
            if delim < nd <= close {
                seq![r] + self.spec_walk(nd, close)
            } else {
                seq![r]
            }
        }
    }

    /// Whether the container delimited by `open` and `close` is empty:
    /// nothing but whitespace lies between its brackets. (Adjacent tape
    /// entries alone do not make it empty: a single scalar element has no
    /// entry of its own.)
    pub open spec fn spec_empty_container(&self, open: int, close: int) -> bool {
        open + 1 == close && self.spec_scalar_bytes(open, close).len() == 0
    }

    /// Whether `r` is a scalar with no bytes: the gap a blank line leaves.
    pub open spec fn spec_blank(&self, r: NodeRepr) -> bool {
        match r {
            NodeRepr::Scalar { lo, hi } => self.spec_scalar_bytes(lo as int, hi as int).len() == 0,
            NodeRepr::Container { .. } => false,
        }
    }

    /// `rs` without its blank scalars.
    pub open spec fn drop_blanks(&self, rs: Seq<NodeRepr>) -> Seq<NodeRepr>
        decreases rs.len(),
    {
        if rs.len() == 0 {
            rs
        } else {
            let d = self.drop_blanks(rs.drop_last());
            if self.spec_blank(rs.last()) {
                d
            } else {
                d.push(rs.last())
            }
        }
    }

    /// The top-level values: the children of the whole tape, blank ones
    /// left out.
    pub open spec fn spec_lines(&self) -> Seq<NodeRepr> {
        self.drop_blanks(self.spec_children(0, self.total() - 1))
    }

    /// The values found one after another in the container delimited by
    /// `open` and `close`: an array's elements.
    pub open spec fn spec_children(&self, open: int, close: int) -> Seq<NodeRepr> {
        if self.spec_empty_container(open, close) {
            Seq::empty()
        } else {
            self.spec_walk(open, close)
        }
    }

    /// The (key entry, value) pairs of an object from the delimiter `delim`
    /// up to `close`: the key lies between `delim` and the next entry (its
    /// colon), the value follows the colon.
    pub open spec fn spec_obj_walk(&self, delim: int, close: int) -> Seq<(usize, NodeRepr)>
        decreases close - delim,
    {
        if delim >= close {
            Seq::empty()
        } else {
            let r = self.spec_read_value(delim + 1);
            let nd = spec_next(r);
            if delim < nd <= close {
                seq![(delim as usize, r)] + self.spec_obj_walk(nd, close)
            } else {
                seq![(delim as usize, r)]
            }
        }
    }

    /// The (key entry, value) pairs of the object delimited by `open` and
    /// `close`.
    pub open spec fn spec_pairs(&self, open: int, close: int) -> Seq<(usize, NodeRepr)> {
        if self.spec_empty_container(open, close) {
            Seq::empty()
        } else {
            self.spec_obj_walk(open, close)
        }
    }

    /// Whether the container interval `open..close` is sound: every opener
    /// strictly inside it pairs with a closer strictly inside it, and its
    /// own close entry is not an opener.
    pub open spec fn interval_ok(&self, open: int, close: int) -> bool {
        &&& 0 <= open < close < self.total()
        &&& !is_opener_byte(self.spec_char(close))
        &&& forall|j: int|
            open < j < close && is_opener_byte(#[trigger] self.spec_char(j)) ==> j
                < self.spec_pair(j) < close
    }

    /// The pairing of the opener at `i` is sound: its closer lies after it,
    /// before the artificial last entry, is the matching bracket, and closes
    /// after every opener between them.
    pub open spec fn pair_ok(&self, i: int) -> bool {
        let c = self.tape.pair_pos@[i] as int;
        &&& i < c < self.total() - 1
        &&& self.spec_char(c) == closer_byte(self.spec_char(i))
        &&& forall|j: int|
            i < j < c && is_opener_byte(#[trigger] self.spec_char(j)) ==> self.tape.pair_pos@[j]
                < c
    }

    /// Well-formedness of the tape against the input: both arrays have the
    /// same length (at least the two artificial entries), every real entry
    /// is an in-range, strictly increasing 1-based offset, and every opener
    /// is soundly paired.
    pub open spec fn wf(&self) -> bool {
        &&& 2 <= self.total() < usize::MAX
        &&& self.tape.pair_pos@.len() == self.total()
        &&& self.input@.len() <= i32::MAX
        &&& forall|i: int|
            0 < i < self.total() - 1 ==> 1 <= #[trigger] self.tape.structural@[i]
                <= self.input@.len()
        &&& forall|i: int, j: int|
            0 < i < j < self.total() - 1 ==> #[trigger] self.tape.structural@[i]
                < #[trigger] self.tape.structural@[j]
        &&& forall|i: int|
            0 < i < self.total() - 1 && is_opener_byte(#[trigger] self.spec_char(i))
                ==> self.pair_ok(i)
    }

    /// Whether `r` is a value this document's navigation can produce and
    /// read: a container whose interval is sound, or a scalar between two
    /// entries.
    pub open spec fn repr_ok(&self, r: NodeRepr) -> bool {
        match r {
            NodeRepr::Container { open, close, kind } => {
                &&& 0 < open
                &&& self.interval_ok(open as int, close as int)
                &&& kind == (if self.spec_char(open as int) == LBRACE {
                    Kind::Object
                } else {
                    Kind::Array
                })
                &&& is_opener_byte(self.spec_char(open as int))
                &&& close as int == self.spec_pair(open as int)
            },
            NodeRepr::Scalar { lo, hi } => lo < hi < self.total(),
        }
    }
}

/// The representations of a sequence of nodes.
pub open spec fn reprs_of<'d>(nodes: Seq<Node<'d>>) -> Seq<NodeRepr> {
    nodes.map_values(|n: Node<'d>| n.repr)
}

/// Every node belongs to `doc`.
pub open spec fn all_in<'d>(nodes: Seq<Node<'d>>, doc: &'d Document) -> bool {
    forall|k: int| 0 <= k < nodes.len() ==> #[trigger] nodes[k].doc == doc
}

impl Document {
    /// A well-formed tape makes the whole tape a sound interval.
    pub proof fn lemma_root_interval(&self)
        requires
            self.wf(),
        ensures
            self.interval_ok(0, self.total() - 1),
    {
        assert forall|j: int|
            0 < j < self.total() - 1 && is_opener_byte(
                #[trigger] self.spec_char(j),
            ) implies j < self.spec_pair(j) < self.total() - 1 by {
            assert(self.pair_ok(j));
        }
    }

    /// Every opener of a well-formed tape delimits a sound interval.
    pub proof fn lemma_opener_interval(&self, j: int)
        requires
            self.wf(),
            0 < j < self.total() - 1,
            is_opener_byte(self.spec_char(j)),
        ensures
            self.interval_ok(j, self.spec_pair(j)),
            self.spec_pair(j) == self.tape.pair_pos@[j],
            self.spec_pair(j) < self.total() - 1,
            self.repr_ok(self.spec_read_value(j - 1)),
    {
        assert(self.pair_ok(j));
        let c = self.spec_pair(j);
        assert forall|x: int| j < x < c && is_opener_byte(#[trigger] self.spec_char(x)) implies x
            < self.spec_pair(x) < c by {
            assert(self.pair_ok(x));
        }
    }

    /// One step of a walk inside a sound interval stays inside it and
    /// yields a readable value.
    pub proof fn lemma_walk_step(&self, open: int, close: int, delim: int)
        requires
            self.wf(),
            self.interval_ok(open, close),
            open <= delim < close,
        ensures
            self.repr_ok(self.spec_read_value(delim)),
            delim < spec_next(self.spec_read_value(delim)) <= close,
    {
        let peek = self.spec_char(delim + 1);
        if is_opener_byte(peek) {
            assert(delim + 1 < close);
            self.lemma_opener_interval(delim + 1);
        }
    }

    /// One step of an object walk: the value after the key's colon is
    /// readable and lies after the key.
    pub proof fn lemma_obj_step(&self, open: int, close: int, delim: int)
        requires
            self.wf(),
            self.interval_ok(open, close),
            close < self.total() - 1,
            open <= delim < close,
        ensures
            self.repr_ok(self.spec_read_value(delim + 1)),
            delim < spec_next(self.spec_read_value(delim + 1)),
    {
        let peek = self.spec_char(delim + 2);
        if is_opener_byte(peek) {
            self.lemma_opener_interval(delim + 2);
        }
    }

    pub fn new(input: Vec<u8>, tape: Tape) -> (d: Document)
        ensures
            d.input == input,
            d.tape == tape,
    {
        Document { input, tape }
    }

    fn total_len(&self) -> (n: usize)
        ensures
            n == self.total(),
    {
        self.tape.structural.len()
    }

    /// 0-based byte position corresponding to tape index `idx`.
    fn byte_pos(&self, idx: usize) -> (p: i64)
        requires
            self.wf(),
            idx < self.total(),
        ensures
            p == self.spec_byte_pos(idx as int),
    {
        let total = self.total_len();
        if idx == 0 {
            -1
        } else if idx + 1 == total {
            self.input.len() as i64
        } else {
            self.tape.structural.get(idx) as i64 - 1
        }
    }

    /// The character tape index `idx` reads as.
    fn get_char(&self, idx: usize) -> (c: u8)
        ensures
            c == self.spec_char(idx as int),
    {
        let total = self.total_len();
        if idx >= total {
            return 0;
        }
        if idx == 0 {
            return LBRACKET;
        }
        if idx + 1 == total {
            return RBRACKET;
        }
        let pos = self.tape.structural.get(idx) as i64 - 1;
        if pos < 0 {
            return 0;
        }
        let p = pos as usize;
        if p >= self.input.len() {
            return 0;
        }
        let c = self.input[p];
        if c == NEWLINE {
            COMMA
        } else {
            c
        }
    }

    fn pair_pos(&self, idx: usize) -> (p: usize)
        requires
            idx < self.tape.pair_pos@.len(),
        ensures
            p == self.spec_pair(idx as int),
    {
        let v = self.tape.pair_pos.get(idx);
        if v < 0 {
            0
        } else {
            v as usize
        }
    }

    /// The whitespace-trimmed input bytes strictly between entries `lo` and
    /// `hi`.
    fn scalar_bytes(&self, lo: usize, hi: usize) -> (b: &[u8])
        requires
            self.wf(),
            lo < hi < self.total(),
        ensures
            b@ == self.spec_scalar_bytes(lo as int, hi as int),
            b@.len() <= self.input@.len(),
    {
        let start = self.byte_pos(lo) + 1;
        let end = self.byte_pos(hi);
        let end = if end < start {
            start
        } else {
            end
        };
        let inner = vstd::slice::slice_subrange(self.input.as_slice(), start as usize, end as usize);
        trim_ascii(inner)
    }

    /// The value that follows structural token `delim`.
    pub(crate) fn read_value(&self, delim: usize) -> (r: NodeRepr)
        requires
            self.tape.pair_pos@.len() == self.total(),
            delim + 1 < self.total(),
        ensures
            r == self.spec_read_value(delim as int),
    {
        let _n = self.total_len();
        let peek = self.get_char(delim + 1);
        if peek == LBRACE || peek == LBRACKET {
            let open = delim + 1;
            let close = self.pair_pos(open);
            let kind = if peek == LBRACE {
                Kind::Object
            } else {
                Kind::Array
            };
            NodeRepr::Container { open, close, kind }
        } else {
            NodeRepr::Scalar { lo: delim, hi: delim + 1 }
        }
    }

    /// The children of the container interval `open..close`.
    fn children<'d>(&'d self, open: usize, close: usize) -> (v: Vec<Node<'d>>)
        requires
            self.wf(),
            self.interval_ok(open as int, close as int),
        ensures
            reprs_of(v@) == self.spec_children(open as int, close as int),
            all_in(v@, self),
            forall|k: int| 0 <= k < v@.len() ==> self.repr_ok(#[trigger] v@[k].repr),
    {
        let mut out: Vec<Node<'d>> = Vec::new();
        if open + 1 == close && self.scalar_bytes(open, close).len() == 0 {
            assert(reprs_of(out@) =~= Seq::<NodeRepr>::empty());
            return out;
        }
        let mut delim = open;
        while delim < close
            invariant
                self.wf(),
                self.interval_ok(open as int, close as int),
                !self.spec_empty_container(open as int, close as int),
                open <= delim <= close,
                self.spec_children(open as int, close as int) == reprs_of(out@) + self.spec_walk(
                    delim as int,
                    close as int,
                ),
                all_in(out@, self),
                forall|k: int| 0 <= k < out@.len() ==> self.repr_ok(#[trigger] out@[k].repr),
            decreases close - delim,
        {
            proof {
                self.lemma_walk_step(open as int, close as int, delim as int);
            }
            let r = self.read_value(delim);
            let ghost before = reprs_of(out@);
            out.push(Node { doc: self, repr: r });
            proof {
                assert(reprs_of(out@) =~= before.push(r));
                assert(before.push(r) + self.spec_walk(spec_next(r), close as int) =~= before + (
                seq![r] + self.spec_walk(spec_next(r), close as int)));
            }
            delim = match r {
                NodeRepr::Container { close: c, .. } => c + 1,
                NodeRepr::Scalar { hi, .. } => hi,
            };
        }
        proof {
            assert(reprs_of(out@) + Seq::<NodeRepr>::empty() =~= reprs_of(out@));
        }
        out
    }

    /// The document's first top-level value. For a JSON Lines document this
    /// is the first line only; `lines()` gives all of them.
    pub fn root<'d>(&'d self) -> (n: Node<'d>)
        requires
            self.wf(),
        ensures
            n.doc == self,
            n.repr == self.spec_read_value(0),
            self.repr_ok(n.repr),
    {
        proof {
            self.lemma_root_interval();
            self.lemma_walk_step(0, self.total() - 1, 0);
        }
        Node { doc: self, repr: self.read_value(0) }
    }

    /// The top-level values of a JSON Lines document (or the single root
    /// value of a standard document); the empty spans of blank lines and of
    /// a trailing newline are not values.
    pub fn lines<'d>(&'d self) -> (v: Vec<Node<'d>>)
        requires
            self.wf(),
        ensures
            reprs_of(v@) == self.spec_lines(),
            all_in(v@, self),
            forall|k: int| 0 <= k < v@.len() ==> self.repr_ok(#[trigger] v@[k].repr),
    {
        proof {
            self.lemma_root_interval();
        }
        let all = self.children(0, self.total_len() - 1);
        let mut out: Vec<Node<'d>> = Vec::new();
        let m = all.len();
        let mut i: usize = 0;
        while i < m
            invariant
                self.wf(),
                m == all@.len(),
                0 <= i <= m,
                reprs_of(all@) == self.spec_children(0, self.total() - 1),
                all_in(all@, self),
                forall|k: int| 0 <= k < m ==> self.repr_ok(#[trigger] all@[k].repr),
                reprs_of(out@) == self.drop_blanks(reprs_of(all@).take(i as int)),
                all_in(out@, self),
                forall|k: int| 0 <= k < out@.len() ==> self.repr_ok(#[trigger] out@[k].repr),
            decreases m - i,
        {
            let node = all[i];
            assert(self.repr_ok(all@[i as int].repr));
            let blank = match node.repr {
                NodeRepr::Scalar { lo, hi } => self.scalar_bytes(lo, hi).len() == 0,
                NodeRepr::Container { .. } => false,
            };
            let ghost before = out@;
            if !blank {
                out.push(node);
                proof {
                    assert(reprs_of(out@) =~= reprs_of(before).push(node.repr));
                }
            }
            proof {
                let t = reprs_of(all@).take(i + 1);
                assert(t.drop_last() =~= reprs_of(all@).take(i as int));
                assert(t.last() == node.repr);
            }
            i += 1;
        }
        proof {
            assert(reprs_of(all@).take(m as int) =~= reprs_of(all@));
        }
        out
    }

    /// Max bracket-nesting depth recorded on the tape.
    pub fn depth(&self) -> (d: i32)
        ensures
            d == self.tape.depth,
    {
        self.tape.depth
    }
}

/// The value of the first pair whose key is `key`.
pub open spec fn first_with_key(items: Seq<(Seq<u8>, NodeRepr)>, key: Seq<u8>) -> Option<NodeRepr>
    decreases items.len(),
{
    if items.len() == 0 {
        None
    } else if items[0].0 == key {
        Some(items[0].1)
    } else {
        first_with_key(items.drop_first(), key)
    }
}

/// Whether `raw` is a JSON string literal: at least two bytes, quoted.
pub open spec fn is_quoted(raw: Seq<u8>) -> bool {
    raw.len() >= 2 && raw[0] == QUOTE && raw.last() == QUOTE
}

/// The bytes between the quotes of a string literal.
pub open spec fn quoted_body(raw: Seq<u8>) -> Seq<u8> {
    raw.subrange(1, raw.len() - 1)
}

impl Document {
    /// The kind of the value `r`.
    pub open spec fn spec_kind(&self, r: NodeRepr) -> Kind {
        match r {
            NodeRepr::Container { kind, .. } => kind,
            NodeRepr::Scalar { lo, hi } => scalar_kind_spec(
                self.spec_scalar_bytes(lo as int, hi as int),
            ),
        }
    }

    /// The elements of `r` when it is an array.
    pub open spec fn spec_array_items(&self, r: NodeRepr) -> Option<Seq<NodeRepr>> {
        match r {
            NodeRepr::Container { open, close, kind: Kind::Array } => Some(
                self.spec_children(open as int, close as int),
            ),
            _ => None,
        }
    }

    /// The key of the object member whose key lies after the entry `delim`:
    /// the unescaped string, or empty when the key is not a well-formed
    /// string literal.
    pub open spec fn spec_key_bytes(&self, delim: int) -> Seq<u8> {
        let kb = self.spec_scalar_bytes(delim, delim + 1);
        if is_quoted(kb) {
            match unescape_spec(quoted_body(kb)) {
                Ok(u) => u,
                Err(_) => Seq::empty(),
            }
        } else {
            Seq::empty()
        }
    }

    /// The (key, value) members of `r` when it is an object.
    pub open spec fn spec_object_items(&self, r: NodeRepr) -> Option<Seq<(Seq<u8>, NodeRepr)>> {
        match r {
            NodeRepr::Container { open, close, kind: Kind::Object } => Some(
                self.spec_pairs(open as int, close as int).map_values(
                    |p: (usize, NodeRepr)| (self.spec_key_bytes(p.0 as int), p.1),
                ),
            ),
            _ => None,
        }
    }

    /// The number of children of `r`: an object's members, an array's
    /// elements; none for a scalar.
    pub open spec fn spec_len(&self, r: NodeRepr) -> Option<usize> {
        match r {
            NodeRepr::Container { open, close, kind } => Some(
                if kind == Kind::Object {
                    self.spec_pairs(open as int, close as int).len() as usize
                } else {
                    self.spec_children(open as int, close as int).len() as usize
                },
            ),
            NodeRepr::Scalar { .. } => None,
        }
    }

    /// Element `i` of the array `r`.
    pub open spec fn spec_index(&self, r: NodeRepr, i: int) -> Option<NodeRepr> {
        match self.spec_array_items(r) {
            Some(items) => if 0 <= i < items.len() {
                Some(items[i])
            } else {
                None
            },
            None => None,
        }
    }

    /// The value of the first member of the object `r` whose key is `key`.
    pub open spec fn spec_get(&self, r: NodeRepr, key: Seq<u8>) -> Option<NodeRepr> {
        match self.spec_object_items(r) {
            Some(items) => first_with_key(items, key),
            None => None,
        }
    }

    /// The exact input bytes of `r`: bracket to bracket for a container,
    /// whitespace-trimmed for a scalar.
    pub open spec fn spec_raw(&self, r: NodeRepr) -> Seq<u8> {
        match r {
            NodeRepr::Container { open, close, .. } => self.input@.subrange(
                self.spec_byte_pos(open as int),
                self.spec_byte_pos(close as int) + 1,
            ),
            NodeRepr::Scalar { lo, hi } => self.spec_scalar_bytes(lo as int, hi as int),
        }
    }

    /// The object member (key, value) pairs from the key delimiter `delim`.
    fn object_pairs<'d>(&'d self, open: usize, close: usize) -> (v: Vec<(usize, NodeRepr)>)
        requires
            self.wf(),
            self.interval_ok(open as int, close as int),
            close < self.total() - 1,
        ensures
            v@ == self.spec_pairs(open as int, close as int),
            forall|k: int|
                0 <= k < v@.len() ==> self.repr_ok((#[trigger] v@[k]).1) && open <= v@[k].0
                    < close,
    {
        let mut out: Vec<(usize, NodeRepr)> = Vec::new();
        if open + 1 == close && self.scalar_bytes(open, close).len() == 0 {
            assert(out@ =~= Seq::<(usize, NodeRepr)>::empty());
            return out;
        }
        let mut delim = open;
        while delim < close
            invariant
                self.wf(),
                self.interval_ok(open as int, close as int),
                close < self.total() - 1,
                !self.spec_empty_container(open as int, close as int),
                open <= delim,
                self.spec_pairs(open as int, close as int) == out@ + self.spec_obj_walk(
                    delim as int,
                    close as int,
                ),
                forall|k: int|
                    0 <= k < out@.len() ==> self.repr_ok((#[trigger] out@[k]).1) && open
                        <= out@[k].0 < close,
            decreases close - delim,
        {
            proof {
                self.lemma_obj_step(open as int, close as int, delim as int);
            }
            let r = self.read_value(delim + 1);
            let ghost before = out@;
            out.push((delim, r));
            let nd = match r {
                NodeRepr::Container { close: c, .. } => c + 1,
                NodeRepr::Scalar { hi, .. } => hi,
            };
            if nd > close {
                proof {
                    assert(self.spec_obj_walk(delim as int, close as int) == seq![(delim, r)]);
                    assert(out@ =~= before + seq![(delim, r)]);
                }
                return out;
            }
            proof {
                assert(before.push((delim, r)) + self.spec_obj_walk(nd as int, close as int)
                    =~= before + (seq![(delim, r)] + self.spec_obj_walk(nd as int, close as int)));
            }
            delim = nd;
        }
        proof {
            assert(out@ + Seq::<(usize, NodeRepr)>::empty() =~= out@);
        }
        out
    }

    /// The unescaped key after the entry `delim` (empty when it is not a
    /// well-formed string literal).
    fn key_bytes(&self, delim: usize) -> (k: Vec<u8>)
        requires
            self.wf(),
            delim + 1 < self.total(),
        ensures
            k@ == self.spec_key_bytes(delim as int),
            valid_utf8(k@),
    {
        let kb = self.scalar_bytes(delim, delim + 1);
        if kb.len() >= 2 && kb[0] == QUOTE && kb[kb.len() - 1] == QUOTE {
            let body = vstd::slice::slice_subrange(kb, 1, kb.len() - 1);
            match unescape_bytes(body) {
                Ok(u) => u,
                Err(_) => {
                    let e: Vec<u8> = Vec::new();
                    proof {
                        assert(valid_utf8(e@));
                    }
                    e
                },
            }
        } else {
            let e: Vec<u8> = Vec::new();
            proof {
                assert(valid_utf8(e@));
            }
            e
        }
    }
}

pub open spec fn lit_true() -> Seq<u8> {
    seq![0x74u8, 0x72u8, 0x75u8, 0x65u8]
}

pub open spec fn lit_false() -> Seq<u8> {
    seq![0x66u8, 0x61u8, 0x6Cu8, 0x73u8, 0x65u8]
}

pub open spec fn lit_null() -> Seq<u8> {
    seq![0x6Eu8, 0x75u8, 0x6Cu8, 0x6Cu8]
}

fn is_lit_true(b: &[u8]) -> (r: bool)
    ensures
        r == (b@ == lit_true()),
{
    let r = b.len() == 4 && b[0] == 0x74 && b[1] == 0x72 && b[2] == 0x75 && b[3] == 0x65;
    proof {
        if r {
            assert(b@ =~= lit_true());
        }
    }
    r
}

fn is_lit_false(b: &[u8]) -> (r: bool)
    ensures
        r == (b@ == lit_false()),
{
    let r = b.len() == 5 && b[0] == 0x66 && b[1] == 0x61 && b[2] == 0x6C && b[3] == 0x73 && b[4]
        == 0x65;
    proof {
        if r {
            assert(b@ =~= lit_false());
        }
    }
    r
}

fn is_lit_null(b: &[u8]) -> (r: bool)
    ensures
        r == (b@ == lit_null()),
{
    let r = b.len() == 4 && b[0] == 0x6E && b[1] == 0x75 && b[2] == 0x6C && b[3] == 0x6C;
    proof {
        if r {
            assert(b@ =~= lit_null());
        }
    }
    r
}

/// The representation carried by an optional node.
pub open spec fn opt_repr<'d>(o: Option<Node<'d>>) -> Option<NodeRepr> {
    match o {
        Some(n) => Some(n.repr),
        None => None,
    }
}

/// The (key bytes, value) view of object members.
pub open spec fn members_view<'d>(v: Seq<(String, Node<'d>)>) -> Seq<(Seq<u8>, NodeRepr)> {
    v.map_values(|p: (String, Node<'d>)| (vstd::utf8::encode_utf8(p.0@), p.1.repr))
}

impl Document {
    /// `r` read as a string: the unescaped UTF-8 bytes of a string literal.
    pub open spec fn spec_as_str(&self, r: NodeRepr) -> Result<Seq<u8>, Error> {
        match r {
            NodeRepr::Scalar { lo, hi } => {
                let raw = self.spec_scalar_bytes(lo as int, hi as int);
                if is_quoted(raw) {
                    unescape_spec(quoted_body(raw))
                } else {
                    Err(Error::TypeMismatch("string"))
                }
            },
            _ => Err(Error::TypeMismatch("string")),
        }
    }

    /// `r` read as an `i64`.
    pub open spec fn spec_as_i64(&self, r: NodeRepr) -> Result<i64, Error> {
        match r {
            NodeRepr::Scalar { lo, hi } => match parse_i64_spec(
                self.spec_scalar_bytes(lo as int, hi as int),
            ) {
                Some(v) => Ok(v),
                None => Err(Error::InvalidNumber),
            },
            _ => Err(Error::TypeMismatch("number")),
        }
    }

    /// `r` read as a boolean.
    pub open spec fn spec_as_bool(&self, r: NodeRepr) -> Result<bool, Error> {
        match r {
            NodeRepr::Scalar { lo, hi } => {
                let raw = self.spec_scalar_bytes(lo as int, hi as int);
                if raw == lit_true() {
                    Ok(true)
                } else if raw == lit_false() {
                    Ok(false)
                } else {
                    Err(Error::TypeMismatch("bool"))
                }
            },
            _ => Err(Error::TypeMismatch("bool")),
        }
    }

    /// Whether `r` is the literal `null`.
    pub open spec fn spec_is_null(&self, r: NodeRepr) -> bool {
        match r {
            NodeRepr::Scalar { lo, hi } => self.spec_scalar_bytes(lo as int, hi as int)
                == lit_null(),
            _ => false,
        }
    }
}

impl<'d> Node<'d> {
    /// The node belongs to a well-formed document and sits where navigation
    /// can produce it.
    pub open spec fn ok(&self) -> bool {
        self.doc.wf() && self.doc.repr_ok(self.repr)
    }

    pub fn kind(&self) -> (k: Kind)
        requires
            self.ok(),
        ensures
            k == self.doc.spec_kind(self.repr),
    {
        match self.repr {
            NodeRepr::Container { kind, .. } => kind,
            NodeRepr::Scalar { lo, hi } => scalar_kind(self.doc.scalar_bytes(lo, hi)),
        }
    }

    /// Number of children, for object/array nodes only: an object's
    /// members, an array's elements.
    pub fn len(&self) -> (n: Option<usize>)
        requires
            self.ok(),
        ensures
            n == self.doc.spec_len(self.repr),
    {
        match self.repr {
            NodeRepr::Container { open, close, kind: Kind::Object } => {
                proof {
                    assert(self.doc.pair_ok(open as int));
                }
                let v = self.doc.object_pairs(open, close);
                Some(v.len())
            },
            NodeRepr::Container { open, close, .. } => {
                let v = self.doc.children(open, close);
                proof {
                    assert(reprs_of(v@).len() == v@.len());
                }
                Some(v.len())
            },
            NodeRepr::Scalar { .. } => None,
        }
    }

    pub fn is_empty(&self) -> (b: Option<bool>)
        requires
            self.ok(),
        ensures
            b == match self.doc.spec_len(self.repr) {
                Some(k) => Some(k == 0),
                None => None::<bool>,
            },
    {
        match self.len() {
            Some(n) => Some(n == 0),
            None => None,
        }
    }

    /// The elements, for an array node only.
    pub fn iter_array(&self) -> (v: Option<Vec<Node<'d>>>)
        requires
            self.ok(),
        ensures
            match v {
                Some(items) => self.doc.spec_array_items(self.repr) == Some(reprs_of(items@))
                    && all_in(items@, self.doc) && forall|k: int|
                    0 <= k < items@.len() ==> self.doc.repr_ok(#[trigger] items@[k].repr),
                None => self.doc.spec_array_items(self.repr) is None,
            },
    {
        match self.repr {
            NodeRepr::Container { open, close, kind: Kind::Array } => Some(
                self.doc.children(open, close),
            ),
            _ => None,
        }
    }

    /// The (key, value) members, for an object node only. A key that is not
    /// a well-formed string literal reads as the empty string.
    pub fn iter_object(&self) -> (v: Option<Vec<(String, Node<'d>)>>)
        requires
            self.ok(),
        ensures
            match v {
                Some(items) => self.doc.spec_object_items(self.repr) == Some(
                    members_view(items@),
                ) && forall|k: int|
                    0 <= k < items@.len() ==> (#[trigger] items@[k]).1.doc == self.doc
                        && self.doc.repr_ok(items@[k].1.repr),
                None => self.doc.spec_object_items(self.repr) is None,
            },
    {
        match self.repr {
            NodeRepr::Container { open, close, kind: Kind::Object } => {
                let doc = self.doc;
                proof {
                    assert(doc.pair_ok(open as int));
                }
                let pairs = doc.object_pairs(open, close);
                let ghost spec_items = doc.spec_pairs(open as int, close as int).map_values(
                    |p: (usize, NodeRepr)| (doc.spec_key_bytes(p.0 as int), p.1),
                );
                let mut out: Vec<(String, Node<'d>)> = Vec::new();
                let m = pairs.len();
                let mut q: usize = 0;
                while q < m
                    invariant
                        doc.wf(),
                        m == pairs@.len(),
                        0 <= q <= m,
                        close < doc.total() - 1,
                        pairs@ == doc.spec_pairs(open as int, close as int),
                        spec_items == doc.spec_pairs(open as int, close as int).map_values(
                            |p: (usize, NodeRepr)| (doc.spec_key_bytes(p.0 as int), p.1),
                        ),
                        forall|k: int|
                            0 <= k < m ==> doc.repr_ok((#[trigger] pairs@[k]).1) && pairs@[k].0
                                < close,
                        members_view(out@) == spec_items.take(q as int),
                        forall|k: int|
                            0 <= k < out@.len() ==> (#[trigger] out@[k]).1.doc == doc
                                && doc.repr_ok(out@[k].1.repr),
                    decreases m - q,
                {
                    let (delim, r) = pairs[q];
                    assert(pairs@[q as int].0 < close);
                    let kb = doc.key_bytes(delim);
                    let key = string_from_utf8(kb.as_slice());
                    let ghost before = out@;
                    out.push((key, Node { doc, repr: r }));
                    proof {
                        assert(members_view(out@) =~= members_view(before).push(
                            (vstd::utf8::encode_utf8(key@), r),
                        ));
                        assert(spec_items.take(q + 1) =~= spec_items.take(q as int).push(
                            spec_items[q as int],
                        ));
                    }
                    q += 1;
                }
                proof {
                    assert(spec_items.take(m as int) =~= spec_items);
                }
                Some(out)
            },
            _ => None,
        }
    }

    /// Element `i`, for an array node only.
    pub fn index(&self, i: usize) -> (r: Option<Node<'d>>)
        requires
            self.ok(),
        ensures
            opt_repr(r) == self.doc.spec_index(self.repr, i as int),
            r matches Some(n) ==> n.doc == self.doc && n.ok(),
    {
        match self.iter_array() {
            None => None,
            Some(items) => {
                if i < items.len() {
                    proof {
                        assert(reprs_of(items@)[i as int] == items@[i as int].repr);
                    }
                    Some(items[i])
                } else {
                    None
                }
            },
        }
    }

    /// The value of the first member with key `key`, for an object node
    /// only.
    pub fn get(&self, key: &str) -> (r: Option<Node<'d>>)
        requires
            self.ok(),
        ensures
            opt_repr(r) == self.doc.spec_get(self.repr, key.spec_bytes()),
            r matches Some(n) ==> n.doc == self.doc && n.ok(),
    {
        self.get_bytes(key.as_bytes())
    }

    /// `get` with the key given as UTF-8 bytes.
    pub fn get_bytes(&self, key: &[u8]) -> (r: Option<Node<'d>>)
        requires
            self.ok(),
        ensures
            opt_repr(r) == self.doc.spec_get(self.repr, key@),
            r matches Some(n) ==> n.doc == self.doc && n.ok(),
    {
        match self.repr {
            NodeRepr::Container { open, close, kind: Kind::Object } => {
                let doc = self.doc;
                proof {
                    assert(doc.pair_ok(open as int));
                }
                let pairs = doc.object_pairs(open, close);
                let ghost items = doc.spec_pairs(open as int, close as int).map_values(
                    |p: (usize, NodeRepr)| (doc.spec_key_bytes(p.0 as int), p.1),
                );
                let m = pairs.len();
                let mut q: usize = 0;
                proof {
                    assert(items.skip(0) =~= items);
                }
                while q < m
                    invariant
                        doc.wf(),
                        m == pairs@.len(),
                        0 <= q <= m,
                        close < doc.total() - 1,
                        pairs@ == doc.spec_pairs(open as int, close as int),
                        items == doc.spec_pairs(open as int, close as int).map_values(
                            |p: (usize, NodeRepr)| (doc.spec_key_bytes(p.0 as int), p.1),
                        ),
                        forall|k: int|
                            0 <= k < m ==> doc.repr_ok((#[trigger] pairs@[k]).1) && pairs@[k].0
                                < close,
                        first_with_key(items, key@) == first_with_key(items.skip(q as int), key@),
                        self.repr == (NodeRepr::Container { open, close, kind: Kind::Object }),
                        doc == self.doc,
                    decreases m - q,
                {
                    let (delim, r) = pairs[q];
                    assert(pairs@[q as int].0 < close);
                    let kb = doc.key_bytes(delim);
                    proof {
                        assert(items.skip(q as int).drop_first() =~= items.skip(q + 1));
                        assert(items.skip(q as int)[0] == (kb@, r));
                        assert(doc.repr_ok(pairs@[q as int].1));
                    }
                    if bytes_eq(kb.as_slice(), key) {
                        return Some(Node { doc, repr: r });
                    }
                    q += 1;
                }
                None
            },
            _ => None,
        }
    }

    /// The value's exact input bytes (whitespace-trimmed for a scalar,
    /// bracket-to-bracket inclusive for a container).
    pub fn raw(&self) -> (b: &'d [u8])
        requires
            self.ok(),
        ensures
            b@ == self.doc.spec_raw(self.repr),
    {
        let doc = self.doc;
        match self.repr {
            NodeRepr::Container { open, close, .. } => {
                proof {
                    assert(doc.pair_ok(open as int));
                }
                let start = doc.byte_pos(open);
                let end = doc.byte_pos(close) + 1;
                vstd::slice::slice_subrange(doc.input.as_slice(), start as usize, end as usize)
            },
            NodeRepr::Scalar { lo, hi } => doc.scalar_bytes(lo, hi),
        }
    }

    /// The unescaped text of a string node.
    pub fn as_str(&self) -> (res: Result<String, Error>)
        requires
            self.ok(),
        ensures
            match res {
                Ok(s) => self.doc.spec_as_str(self.repr) == Ok::<Seq<u8>, Error>(
                    vstd::utf8::encode_utf8(s@),
                ),
                Err(e) => self.doc.spec_as_str(self.repr) == Err::<Seq<u8>, Error>(e),
            },
    {
        match self.repr {
            NodeRepr::Scalar { lo, hi } => {
                let raw = self.doc.scalar_bytes(lo, hi);
                if raw.len() < 2 || raw[0] != QUOTE || raw[raw.len() - 1] != QUOTE {
                    return Err(Error::TypeMismatch("string"));
                }
                unescape(vstd::slice::slice_subrange(raw, 1, raw.len() - 1))
            },
            _ => Err(Error::TypeMismatch("string")),
        }
    }

    /// A number node read as an `i64`.
    pub fn as_i64(&self) -> (res: Result<i64, Error>)
        requires
            self.ok(),
        ensures
            res == self.doc.spec_as_i64(self.repr),
    {
        match self.repr {
            NodeRepr::Scalar { lo, hi } => {
                let raw = self.doc.scalar_bytes(lo, hi);
                match parse_i64(raw) {
                    Some(v) => Ok(v),
                    None => Err(Error::InvalidNumber),
                }
            },
            _ => Err(Error::TypeMismatch("number")),
        }
    }

    pub fn as_bool(&self) -> (res: Result<bool, Error>)
        requires
            self.ok(),
        ensures
            res == self.doc.spec_as_bool(self.repr),
    {
        match self.repr {
            NodeRepr::Scalar { lo, hi } => {
                let raw = self.doc.scalar_bytes(lo, hi);
                if is_lit_true(raw) {
                    Ok(true)
                } else if is_lit_false(raw) {
                    Ok(false)
                } else {
                    Err(Error::TypeMismatch("bool"))
                }
            },
            _ => Err(Error::TypeMismatch("bool")),
        }
    }

    pub fn is_null(&self) -> (b: bool)
        requires
            self.ok(),
        ensures
            b == self.doc.spec_is_null(self.repr),
    {
        match self.repr {
            NodeRepr::Scalar { lo, hi } => is_lit_null(self.doc.scalar_bytes(lo, hi)),
            _ => false,
        }
    }
}

/// Index of the first `b` in `s` at or after `i`, or the length.
pub open spec fn find_byte(s: Seq<u8>, i: int, b: u8) -> int
    decreases s.len() - i,
{
    if i < 0 || i >= s.len() {
        s.len() as int
    } else if s[i] == b {
        i
    } else {
        find_byte(s, i + 1, b)
    }
}

pub proof fn lemma_find_byte(s: Seq<u8>, i: int, b: u8)
    requires
        0 <= i <= s.len(),
    ensures
        i <= find_byte(s, i, b) <= s.len(),
        forall|k: int| i <= k < find_byte(s, i, b) ==> #[trigger] s[k] != b,
        find_byte(s, i, b) < s.len() ==> s[find_byte(s, i, b)] == b,
    decreases s.len() - i,
{
    if i < s.len() && s[i] != b {
        lemma_find_byte(s, i + 1, b);
    }
}

/// The `/`-separated pieces of `p` from position `i` on (at least one,
/// possibly empty).
pub open spec fn split_from(p: Seq<u8>, i: int) -> Seq<Seq<u8>>
    decreases p.len() - i,
{
    let k = find_byte(p, i, SLASH);
    if i < 0 || i > p.len() || k >= p.len() || k < i {
        seq![p.subrange(i, p.len() as int)]
    } else {
        seq![p.subrange(i, k)] + split_from(p, k + 1)
    }
}

/// `s` with each occurrence of the two bytes `a b` replaced by `c`,
/// left to right, as `str::replace` does.
pub open spec fn replace_pair(s: Seq<u8>, a: u8, b: u8, c: u8) -> Seq<u8>
    decreases s.len(),
{
    if s.len() == 0 {
        s
    } else if s.len() >= 2 && s[0] == a && s[1] == b {
        seq![c] + replace_pair(s.skip(2), a, b, c)
    } else {
        seq![s[0]] + replace_pair(s.drop_first(), a, b, c)
    }
}

/// A JSON Pointer reference token with `~1` read as `/` and then `~0` as
/// `~`.
pub open spec fn decode_token(t: Seq<u8>) -> Seq<u8> {
    replace_pair(replace_pair(t, 0x7Eu8, 0x31u8, SLASH), 0x7Eu8, 0x30u8, 0x7Eu8)
}

fn replace_pair_exec(s: &[u8], a: u8, b: u8, c: u8) -> (r: Vec<u8>)
    ensures
        r@ == replace_pair(s@, a, b, c),
{
    let n = s.len();
    let mut out: Vec<u8> = Vec::new();
    let mut i: usize = 0;
    proof {
        assert(s@.skip(0) =~= s@);
        assert(out@ + replace_pair(s@.skip(0), a, b, c) =~= replace_pair(s@, a, b, c));
    }
    while i < n
        invariant
            n == s@.len(),
            0 <= i <= n,
            out@ + replace_pair(s@.skip(i as int), a, b, c) == replace_pair(s@, a, b, c),
        decreases n - i,
    {
        let ghost t = s@.skip(i as int);
        let ghost before = out@;
        if i + 1 < n && s[i] == a && s[i + 1] == b {
            out.push(c);
            proof {
                assert(t.skip(2) =~= s@.skip(i + 2));
                assert(before.push(c) + replace_pair(s@.skip(i + 2), a, b, c) =~= before + (seq![c]
                    + replace_pair(t.skip(2), a, b, c)));
            }
            i += 2;
        } else {
            out.push(s[i]);
            proof {
                assert(t.drop_first() =~= s@.skip(i + 1));
                assert(before.push(s@[i as int]) + replace_pair(s@.skip(i + 1), a, b, c) =~= before
                    + (seq![t[0]] + replace_pair(t.drop_first(), a, b, c)));
            }
            i += 1;
        }
    }
    proof {
        assert(s@.skip(n as int) =~= Seq::<u8>::empty());
        assert(out@ + Seq::<u8>::empty() =~= out@);
    }
    out
}

/// Index of the unescaped quote that closes the string literal whose body
/// starts at `i`, or the length when none does.
pub open spec fn closing_quote(s: Seq<u8>, i: int) -> int
    decreases s.len() - i,
{
    if i < 0 || i >= s.len() {
        s.len() as int
    } else if s[i] == super::text::BACKSLASH {
        if i + 1 >= s.len() {
            s.len() as int
        } else {
            closing_quote(s, i + 2)
        }
    } else if s[i] == QUOTE {
        i
    } else {
        closing_quote(s, i + 1)
    }
}

/// Whether the trimmed scalar text `raw` is one value: a string literal
/// closed by its last byte, or any other text without whitespace.
pub open spec fn single_scalar(raw: Seq<u8>) -> bool {
    if raw.len() == 0 {
        false
    } else if raw[0] == QUOTE {
        closing_quote(raw, 1) == raw.len() - 1
    } else {
        forall|k: int| 0 <= k < raw.len() ==> !is_ascii_ws(#[trigger] raw[k])
    }
}

/// The array index that the pointer token `t` names under RFC 6901:
/// `0`, or a nonzero digit followed by digits, with the value in range; no
/// sign and no leading zero.
pub open spec fn array_index_spec(t: Seq<u8>) -> Option<usize> {
    if t.len() == 0 || !is_digit(t[0]) || (t.len() > 1 && t[0] == 0x30u8) {
        None
    } else {
        parse_usize_spec(t)
    }
}

/// The array index that the pointer token `t` names under RFC 6901.
fn array_index(t: &[u8]) -> (r: Option<usize>)
    ensures
        r == array_index_spec(t@),
{
    if t.len() == 0 || !(0x30 <= t[0] && t[0] <= 0x39) || (t.len() > 1 && t[0] == 0x30) {
        None
    } else {
        parse_usize(t)
    }
}

impl Document {
    /// One step of a JSON Pointer from `r` along the decoded token `t`: an
    /// object member by key, or an array element by its index token.
    pub open spec fn spec_pointer_step(&self, r: NodeRepr, t: Seq<u8>) -> Option<NodeRepr> {
        match self.spec_kind(r) {
            Kind::Object => self.spec_get(r, t),
            Kind::Array => match array_index_spec(t) {
                Some(i) => self.spec_index(r, i as int),
                None => None,
            },
            _ => None,
        }
    }

    /// Follows the raw reference tokens `toks` from `r`.
    pub open spec fn spec_pointer_walk(&self, r: NodeRepr, toks: Seq<Seq<u8>>) -> Option<
        NodeRepr,
    >
        decreases toks.len(),
    {
        if toks.len() == 0 {
            Some(r)
        } else {
            match self.spec_pointer_step(r, decode_token(toks[0])) {
                Some(n) => self.spec_pointer_walk(n, toks.drop_first()),
                None => None,
            }
        }
    }

    /// RFC 6901 resolution of the pointer `p` against the value `r`.
    pub open spec fn spec_pointer_from(&self, r: NodeRepr, p: Seq<u8>) -> Option<NodeRepr> {
        if p.len() == 0 {
            Some(r)
        } else if p[0] != SLASH {
            None
        } else {
            self.spec_pointer_walk(r, split_from(p, 1))
        }
    }

    /// RFC 6901 resolution of the pointer `p` against the root value.
    pub open spec fn spec_pointer(&self, p: Seq<u8>) -> Option<NodeRepr> {
        self.spec_pointer_from(self.spec_read_value(0), p)
    }

    /// Whether the document holds exactly one top-level value.
    pub open spec fn spec_is_single_value(&self) -> bool {
        single_value_spec(self.input@, self.tape.structural@, self.tape.pair_pos@)
    }
}

/// Whether `input` with the tape arrays `s` and `p` holds exactly one
/// top-level value: with no structural entries, a single scalar; otherwise
/// one container spanning every real entry (its opener first, paired with
/// the last real entry), with only whitespace around it.
pub open spec fn single_value_spec(input: Seq<u8>, s: Seq<i32>, p: Seq<i32>) -> bool {
    let n = s.len() as int;
    if n <= 2 {
        single_scalar(trim_ws(input))
    } else {
        let first = s[1] - 1;
        let c = if first < 0 || first >= input.len() {
            0u8
        } else if input[first] == NEWLINE {
            COMMA
        } else {
            input[first]
        };
        &&& is_opener_byte(c)
        &&& (if p[1] < 0 {
            0
        } else {
            p[1] as int
        }) == n - 2
        &&& trim_ws(input.subrange(0, first)).len() == 0
        &&& trim_ws(input.subrange(s[n - 2] as int, input.len() as int)).len() == 0
    }
}

impl<'d> Node<'d> {
    /// One JSON Pointer step along the decoded token `t`.
    fn pointer_step(&self, t: &[u8]) -> (r: Option<Node<'d>>)
        requires
            self.ok(),
        ensures
            opt_repr(r) == self.doc.spec_pointer_step(self.repr, t@),
            r matches Some(n) ==> n.doc == self.doc && n.ok(),
    {
        match self.kind() {
            Kind::Object => self.get_bytes(t),
            Kind::Array => match array_index(t) {
                Some(i) => self.index(i),
                None => None,
            },
            _ => None,
        }
    }
}

impl Document {
    /// Resolve an RFC 6901 JSON Pointer against the root value.
    pub fn pointer<'d>(&'d self, pointer: &str) -> (r: Option<Node<'d>>)
        requires
            self.wf(),
        ensures
            opt_repr(r) == self.spec_pointer(pointer.spec_bytes()),
            r matches Some(n) ==> n.doc == self && n.ok(),
    {
        self.pointer_bytes(pointer.as_bytes())
    }

    /// `pointer` with the pointer given as bytes.
    pub fn pointer_bytes<'d>(&'d self, p: &[u8]) -> (r: Option<Node<'d>>)
        requires
            self.wf(),
        ensures
            opt_repr(r) == self.spec_pointer(p@),
            r matches Some(n) ==> n.doc == self && n.ok(),
    {
        self.root().pointer_bytes(p)
    }

}

impl<'d> Node<'d> {
    /// Resolve an RFC 6901 JSON Pointer against this value.
    pub fn pointer(&self, pointer: &str) -> (r: Option<Node<'d>>)
        requires
            self.ok(),
        ensures
            opt_repr(r) == self.doc.spec_pointer_from(self.repr, pointer.spec_bytes()),
            r matches Some(n) ==> n.doc == self.doc && n.ok(),
    {
        self.pointer_bytes(pointer.as_bytes())
    }

    /// `pointer` with the pointer given as bytes.
    pub fn pointer_bytes(&self, p: &[u8]) -> (r: Option<Node<'d>>)
        requires
            self.ok(),
        ensures
            opt_repr(r) == self.doc.spec_pointer_from(self.repr, p@),
            r matches Some(n) ==> n.doc == self.doc && n.ok(),
    {
        let doc = self.doc;
        let mut node = *self;
        let n = p.len();
        if n == 0 {
            return Some(node);
        }
        if p[0] != SLASH {
            return None;
        }
        let mut start: usize = 1;
        while start <= n
            invariant
                doc.wf(),
                doc == self.doc,
                n == p@.len(),
                1 <= start <= n,
                node.doc == doc,
                node.ok(),
                doc.spec_pointer_from(self.repr, p@) == doc.spec_pointer_walk(
                    node.repr,
                    split_from(p@, start as int),
                ),
            decreases n + 1 - start,
        {
            let mut k = start;
            while k < n && p[k] != SLASH
                invariant
                    n == p@.len(),
                    start <= k <= n,
                    forall|q: int| start <= q < k ==> #[trigger] p@[q] != SLASH,
                decreases n - k,
            {
                k += 1;
            }
            proof {
                lemma_find_byte(p@, start as int, SLASH);
                let f = find_byte(p@, start as int, SLASH);
                if f < k {
                    assert(p@[f] != SLASH);
                }
                if k < n {
                    assert(f >= k);
                }
            }
            let tok = vstd::slice::slice_subrange(p, start, k);
            let t1 = replace_pair_exec(tok, 0x7E, 0x31, SLASH);
            let t = replace_pair_exec(t1.as_slice(), 0x7E, 0x30, 0x7E);
            let ghost toks = split_from(p@, start as int);
            proof {
                assert(toks[0] == tok@);
            }
            let ghost prev = node.repr;
            match node.pointer_step(t.as_slice()) {
                None => {
                    return None;
                },
                Some(next) => {
                    node = next;
                },
            }
            proof {
                assert(doc.spec_pointer_walk(prev, toks) == doc.spec_pointer_walk(
                    node.repr,
                    toks.drop_first(),
                ));
            }
            if k >= n {
                proof {
                    assert(toks.drop_first() =~= Seq::<Seq<u8>>::empty());
                    assert(doc.spec_pointer_walk(node.repr, toks.drop_first()) == Some(node.repr));
                }
                return Some(node);
            }
            proof {
                assert(toks.drop_first() =~= split_from(p@, k + 1));
            }
            start = k + 1;
        }
        None
    }

}

impl Document {
    /// Whether the document holds exactly one top-level value (standard
    /// mode accepts exactly one; the GPU parser does not check this).
    pub fn is_single_value(&self) -> (b: bool)
        requires
            self.wf(),
        ensures
            b == self.spec_is_single_value(),
    {
        let n = self.total_len();
        let len = self.input.len();
        if n <= 2 {
            let raw = trim_ascii(self.input.as_slice());
            return single_scalar_exec(raw);
        }
        if !(self.get_char(1) == LBRACE || self.get_char(1) == LBRACKET) {
            return false;
        }
        if self.pair_pos(1) != n - 2 {
            return false;
        }
        let first = self.byte_pos(1);
        let last = self.byte_pos(n - 2);
        let before = trim_ascii(vstd::slice::slice_subrange(self.input.as_slice(), 0, first as usize));
        let after = trim_ascii(
            vstd::slice::slice_subrange(self.input.as_slice(), (last + 1) as usize, len),
        );
        before.len() == 0 && after.len() == 0
    }
}

/// Whether the trimmed scalar text `raw` is a single value.
fn single_scalar_exec(raw: &[u8]) -> (b: bool)
    ensures
        b == single_scalar(raw@),
{
    let n = raw.len();
    if n == 0 {
        return false;
    }
    if raw[0] == QUOTE {
        let mut i: usize = 1;
        while i < n
            invariant
                n == raw@.len(),
                n > 0,
                raw@[0] == QUOTE,
                1 <= i,
                closing_quote(raw@, 1) == closing_quote(raw@, i as int),
            decreases n - i,
        {
            if raw[i] == super::text::BACKSLASH {
                if i + 1 >= n {
                    return n - 1 == n;
                }
                i += 2;
            } else if raw[i] == QUOTE {
                return i == n - 1;
            } else {
                i += 1;
            }
        }
        return false;
    }
    let mut i: usize = 0;
    while i < n
        invariant
            n == raw@.len(),
            n > 0,
            raw@[0] != QUOTE,
            0 <= i <= n,
            forall|k: int| 0 <= k < i ==> !is_ascii_ws(#[trigger] raw@[k]),
        decreases n - i,
    {
        if is_ascii_whitespace(raw[i]) {
            return false;
        }
        i += 1;
    }
    true
}


impl Document {
    /// For a JSON Lines document, the pointer `p` (starting with `/`)
    /// resolved with its first token selecting the line by index: `/1/user`
    /// is line 1's `user`.
    pub open spec fn spec_line_pointer(&self, p: Seq<u8>) -> Option<NodeRepr> {
        if p.len() == 0 || p[0] != SLASH {
            None
        } else {
            let cut = find_byte(p, 1, SLASH);
            match parse_usize_spec(p.subrange(1, cut)) {
                Some(k) => {
                    let lines = self.spec_lines();
                    if k < lines.len() {
                        self.spec_pointer_from(lines[k as int], p.subrange(cut, p.len() as int))
                    } else {
                        None
                    }
                },
                None => None,
            }
        }
    }

    /// For a JSON Lines document, resolve the pointer `pointer` with its
    /// first token selecting the line by index: `/1/user` is line 1's
    /// `user`, `/0` is line 0.
    pub fn line_pointer<'d>(&'d self, pointer: &str) -> (r: Option<Node<'d>>)
        requires
            self.wf(),
        ensures
            opt_repr(r) == self.spec_line_pointer(pointer.spec_bytes()),
            r matches Some(n) ==> n.doc == self && n.ok(),
    {
        let p = pointer.as_bytes();
        let n = p.len();
        if n == 0 || p[0] != SLASH {
            return None;
        }
        let mut cut: usize = 1;
        while cut < n && p[cut] != SLASH
            invariant
                n == p@.len(),
                1 <= cut <= n,
                forall|q: int| 1 <= q < cut ==> #[trigger] p@[q] != SLASH,
            decreases n - cut,
        {
            cut += 1;
        }
        proof {
            lemma_find_byte(p@, 1, SLASH);
            let f = find_byte(p@, 1, SLASH);
            if f < cut {
                assert(p@[f] != SLASH);
            }
            if cut < n {
                assert(f >= cut);
            }
        }
        let index = match parse_usize(vstd::slice::slice_subrange(p, 1, cut)) {
            Some(k) => k,
            None => {
                return None;
            },
        };
        let lines = self.lines();
        if index >= lines.len() {
            return None;
        }
        let line = lines[index];
        proof {
            assert(reprs_of(lines@)[index as int] == line.repr);
        }
        line.pointer_bytes(vstd::slice::slice_subrange(p, cut, n))
    }
}


/// Two documents over the same input and `structural` array whose
/// `pair_pos` arrays agree at every opener entry: they differ at most in
/// the slots a GPU tape leaves undefined.
pub open spec fn same_but_undefined_slots(d1: &Document, d2: &Document) -> bool {
    &&& d1.input@ == d2.input@
    &&& d1.tape.structural@ == d2.tape.structural@
    &&& d1.tape.pair_pos@.len() == d2.tape.pair_pos@.len()
    &&& forall|i: int|
        0 <= i < d1.total() && is_opener_byte(#[trigger] d1.spec_char(i)) ==> d1.tape.pair_pos@[i]
            == d2.tape.pair_pos@[i]
}

proof fn lemma_read_value_same(d1: &Document, d2: &Document, delim: int)
    requires
        same_but_undefined_slots(d1, d2),
    ensures
        d1.spec_read_value(delim) == d2.spec_read_value(delim),
{
    assert(d1.spec_char(delim + 1) == d2.spec_char(delim + 1));
    if is_opener_byte(d1.spec_char(delim + 1)) && 0 <= delim + 1 < d1.total() {
        assert(d1.tape.pair_pos@[delim + 1] == d2.tape.pair_pos@[delim + 1]);
    }
}

proof fn lemma_walk_same(d1: &Document, d2: &Document, delim: int, close: int)
    requires
        same_but_undefined_slots(d1, d2),
    ensures
        d1.spec_walk(delim, close) == d2.spec_walk(delim, close),
        d1.spec_obj_walk(delim, close) == d2.spec_obj_walk(delim, close),
    decreases close - delim,
{
    if delim < close {
        lemma_read_value_same(d1, d2, delim);
        lemma_read_value_same(d1, d2, delim + 1);
        let n1 = spec_next(d1.spec_read_value(delim));
        let n2 = spec_next(d1.spec_read_value(delim + 1));
        if delim < n1 <= close {
            lemma_walk_same(d1, d2, n1, close);
        }
        if delim < n2 <= close {
            lemma_walk_same(d1, d2, n2, close);
        }
    }
}

proof fn lemma_pointer_walk_same(d1: &Document, d2: &Document, r: NodeRepr, toks: Seq<Seq<u8>>)
    requires
        same_but_undefined_slots(d1, d2),
    ensures
        d1.spec_pointer_walk(r, toks) == d2.spec_pointer_walk(r, toks),
    decreases toks.len(),
{
    if toks.len() > 0 {
        let t = decode_token(toks[0]);
        match r {
            NodeRepr::Container { open, close, .. } => {
                lemma_walk_same(d1, d2, open as int, close as int);
                assert(d1.spec_children(open as int, close as int) == d2.spec_children(
                    open as int,
                    close as int,
                ));
                assert(d1.spec_pairs(open as int, close as int) == d2.spec_pairs(
                    open as int,
                    close as int,
                ));
                assert(d1.spec_object_items(r) =~= d2.spec_object_items(r));
            },
            NodeRepr::Scalar { .. } => {},
        }
        assert(d1.spec_pointer_step(r, t) == d2.spec_pointer_step(r, t));
        match d1.spec_pointer_step(r, t) {
            Some(n) => lemma_pointer_walk_same(d1, d2, n, toks.drop_first()),
            None => {},
        }
    }
}

/// Navigation reads `pair_pos` only at opener entries: two documents that
/// differ only in the other slots (which a GPU tape leaves undefined) have
/// the same root, the same children and members of every container, the
/// same top-level values, and resolve every pointer the same way.
pub proof fn lemma_navigation_ignores_undefined_slots(d1: &Document, d2: &Document)
    requires
        same_but_undefined_slots(d1, d2),
    ensures
        d1.spec_read_value(0) == d2.spec_read_value(0),
        forall|o: int, c: int| #[trigger] d1.spec_children(o, c) == d2.spec_children(o, c),
        forall|o: int, c: int| #[trigger] d1.spec_pairs(o, c) == d2.spec_pairs(o, c),
        d1.spec_lines() == d2.spec_lines(),
        forall|p: Seq<u8>| #[trigger] d1.spec_pointer(p) == d2.spec_pointer(p),
{
    lemma_read_value_same(d1, d2, 0);
    assert forall|o: int, c: int| #[trigger] d1.spec_children(o, c) == d2.spec_children(o, c) by {
        lemma_walk_same(d1, d2, o, c);
    }
    assert forall|o: int, c: int| #[trigger] d1.spec_pairs(o, c) == d2.spec_pairs(o, c) by {
        lemma_walk_same(d1, d2, o, c);
    }
    lemma_walk_same(d1, d2, 0, d1.total() - 1);
    assert(d1.spec_children(0, d1.total() - 1) == d2.spec_children(0, d2.total() - 1));
    lemma_drop_blanks_same(d1, d2, d1.spec_children(0, d1.total() - 1));
    assert forall|p: Seq<u8>| #[trigger] d1.spec_pointer(p) == d2.spec_pointer(p) by {
        if p.len() > 0 && p[0] == SLASH {
            lemma_pointer_walk_same(d1, d2, d1.spec_read_value(0), split_from(p, 1));
        }
    }
}

proof fn lemma_drop_blanks_same(d1: &Document, d2: &Document, rs: Seq<NodeRepr>)
    requires
        same_but_undefined_slots(d1, d2),
    ensures
        d1.drop_blanks(rs) == d2.drop_blanks(rs),
    decreases rs.len(),
{
    if rs.len() > 0 {
        lemma_drop_blanks_same(d1, d2, rs.drop_last());
    }
}

/// The top-level values never include a blank line's empty span.
pub proof fn lemma_lines_not_blank(d: &Document)
    ensures
        forall|k: int| 0 <= k < d.spec_lines().len() ==> !d.spec_blank(#[trigger] d.spec_lines()[k]),
{
    lemma_drop_blanks_not_blank(d, d.spec_children(0, d.total() - 1));
}

proof fn lemma_drop_blanks_not_blank(d: &Document, rs: Seq<NodeRepr>)
    ensures
        forall|k: int| 0 <= k < d.drop_blanks(rs).len() ==> !d.spec_blank(
            #[trigger] d.drop_blanks(rs)[k],
        ),
    decreases rs.len(),
{
    if rs.len() > 0 {
        lemma_drop_blanks_not_blank(d, rs.drop_last());
        let prev = d.drop_blanks(rs.drop_last());
        if !d.spec_blank(rs.last()) {
            assert forall|k: int| 0 <= k < prev.push(rs.last()).len() implies !d.spec_blank(
                #[trigger] prev.push(rs.last())[k],
            ) by {
                if k < prev.len() {
                    assert(prev.push(rs.last())[k] == prev[k]);
                }
            }
        }
    }
}

impl Document {
    /// A pointer into a JSON Lines document whose first token is the
    /// decimal index `k` of a line (`/k`, then `rest`, empty or starting
    /// with `/`) resolves `rest` within line `k`, or to nothing when there
    /// is no such line.
    pub proof fn lemma_line_pointer_selects_line(&self, k: nat, rest: Seq<u8>)
        requires
            k <= usize::MAX,
            rest.len() == 0 || rest[0] == SLASH,
        ensures
            self.spec_line_pointer(seq![SLASH] + decimal(k) + rest) == (if k
                < self.spec_lines().len() {
                self.spec_pointer_from(self.spec_lines()[k as int], rest)
            } else {
                None
            }),
    {
        let d = decimal(k);
        let p = seq![SLASH] + d + rest;
        lemma_decimal_digits(k);
        let m: int = 1 + d.len() as int;
        lemma_find_byte(p, 1, SLASH);
        let f = find_byte(p, 1, SLASH);
        assert forall|q: int| 1 <= q < m implies #[trigger] p[q] != SLASH by {
            assert(p[q] == d[q - 1]);
            assert(is_digit(d[q - 1]));
        }
        if rest.len() > 0 {
            assert(p[m] == rest[0]);
        }
        assert(f == m);
        assert(p.subrange(1, m) =~= d);
        assert(p.subrange(m, p.len() as int) =~= rest);
        assert(d[0] != 0x2Bu8) by {
            assert(is_digit(d[0]));
        }
        assert(parse_usize_spec(d) == Some(k as usize));
    }
}

impl Document {
    /// A pointer into a JSON Lines document that does not start with `/`
    /// (the empty one included), or whose first token does not read as a
    /// line number, resolves to nothing.
    pub proof fn lemma_line_pointer_rejects(&self, p: Seq<u8>)
        ensures
            (p.len() == 0 || p[0] != SLASH) ==> self.spec_line_pointer(p) is None,
            (p.len() > 0 && p[0] == SLASH && parse_usize_spec(
                p.subrange(1, find_byte(p, 1, SLASH)),
            ) is None) ==> self.spec_line_pointer(p) is None,
    {
    }
}

/// Where a pointer leads in a document: a value, every line (the empty
/// pointer into a JSON Lines document), or nowhere.
pub enum Resolved<'d> {
    Value(Node<'d>),
    AllLines,
    Missing,
}

impl Document {
    /// What `pointer` resolves to, as the Python binding reads it: in a
    /// standard document, by `pointer`; in a JSON Lines document, the empty
    /// pointer stands for all the lines, and any other by `line_pointer`.
    pub fn resolve_pointer<'d>(&'d self, is_lines: bool, pointer: &str) -> (r: Resolved<'d>)
        requires
            self.wf(),
        ensures
            (is_lines && pointer.spec_bytes().len() == 0) <==> r is AllLines,
            !(is_lines && pointer.spec_bytes().len() == 0) ==> {
                let target = if is_lines {
                    self.spec_line_pointer(pointer.spec_bytes())
                } else {
                    self.spec_pointer(pointer.spec_bytes())
                };
                match r {
                    Resolved::Value(n) => target == Some(n.repr) && n.doc == self && n.ok(),
                    Resolved::Missing => target is None,
                    Resolved::AllLines => false,
                }
            },
    {
        let found = if !is_lines {
            self.pointer(pointer)
        } else if pointer.as_bytes().len() == 0 {
            return Resolved::AllLines;
        } else {
            self.line_pointer(pointer)
        };
        match found {
            Some(n) => Resolved::Value(n),
            None => Resolved::Missing,
        }
    }
}

impl Document {
    /// The raw bytes of a container run from its opening bracket to the
    /// matching closing bracket, both included: `{`...`}` for an object,
    /// `[`...`]` for an array.
    pub proof fn lemma_container_raw_is_bracketed(&self, r: NodeRepr)
        requires
            self.wf(),
            self.repr_ok(r),
            r is Container,
        ensures
            ({
                let raw = self.spec_raw(r);
                &&& raw.len() >= 2
                &&& raw[0] == (if r->kind == Kind::Object {
                    LBRACE
                } else {
                    LBRACKET
                })
                &&& raw.last() == closer_byte(raw[0])
            }),
    {
        if let NodeRepr::Container { open, close, kind } = r {
            let o = open as int;
            let c = close as int;
            assert(self.pair_ok(o));
            assert(self.tape.pair_pos@[o] as int == c);
            let s = self.tape.structural@;
            assert(1 <= s[o] <= self.input@.len());
            assert(1 <= s[c] <= self.input@.len());
            assert(s[o] < s[c]);
            let raw = self.spec_raw(r);
            assert(raw == self.input@.subrange(s[o] - 1, s[c] as int));
            assert(raw[0] == self.input@[s[o] - 1]);
            assert(raw.last() == self.input@[s[c] - 1]);
        }
    }
}

/// `first_with_key` finds the value of the first pair whose key is `key`,
/// and nothing exactly when no pair has that key.
proof fn lemma_first_with_key(items: Seq<(Seq<u8>, NodeRepr)>, key: Seq<u8>)
    ensures
        first_with_key(items, key) is None <==> forall|i: int|
            0 <= i < items.len() ==> (#[trigger] items[i]).0 != key,
        first_with_key(items, key) matches Some(v) ==> exists|i: int|
            0 <= i < items.len() && (#[trigger] items[i]) == (key, v) && forall|j: int|
                0 <= j < i ==> (#[trigger] items[j]).0 != key,
    decreases items.len(),
{
    if items.len() > 0 {
        let rest = items.drop_first();
        lemma_first_with_key(rest, key);
        if items[0].0 != key {
            assert forall|i: int| 0 <= i < rest.len() implies rest[i] == items[i + 1] by {}
            if first_with_key(rest, key) is None {
                assert forall|i: int| 0 <= i < items.len() implies (#[trigger] items[i]).0 != key by {
                    if i > 0 {
                        assert(items[i] == rest[i - 1]);
                    }
                }
            } else {
                let v = first_with_key(rest, key)->Some_0;
                let i = choose|i: int|
                    0 <= i < rest.len() && (#[trigger] rest[i]) == (key, v) && forall|j: int|
                        0 <= j < i ==> (#[trigger] rest[j]).0 != key;
                assert(items[i + 1] == (key, v));
                assert forall|j: int| 0 <= j < i + 1 implies (#[trigger] items[j]).0 != key by {
                    if j > 0 {
                        assert(items[j] == rest[j - 1]);
                    }
                }
            }
        }
    }
}

impl Document {
    /// Looking a member up by key agrees with the members `iter_object`
    /// yields: it finds the value of the first member whose (unescaped)
    /// key is `key`, and nothing exactly when no member has that key.
    pub proof fn lemma_get_agrees_with_members(&self, r: NodeRepr, key: Seq<u8>)
        requires
            r matches NodeRepr::Container { kind: Kind::Object, .. },
        ensures
            ({
                let items = self.spec_object_items(r)->Some_0;
                &&& self.spec_object_items(r) is Some
                &&& self.spec_get(r, key) == first_with_key(items, key)
                &&& (self.spec_get(r, key) is None <==> forall|i: int|
                    0 <= i < items.len() ==> (#[trigger] items[i]).0 != key)
                &&& (self.spec_get(r, key) matches Some(v) ==> exists|i: int|
                    0 <= i < items.len() && (#[trigger] items[i]) == (key, v) && forall|j: int|
                        0 <= j < i ==> (#[trigger] items[j]).0 != key)
            }),
    {
        lemma_first_with_key(self.spec_object_items(r)->Some_0, key);
    }

    /// Each member's key, as `iter_object` yields it, is its key literal
    /// with the quotes removed and the escapes resolved.
    pub proof fn lemma_member_keys_unescaped(&self, r: NodeRepr)
        requires
            r matches NodeRepr::Container { kind: Kind::Object, .. },
        ensures
            forall|i: int|
                0 <= i < self.spec_pairs(r->open as int, r->close as int).len() ==> {
                    let e = #[trigger] self.spec_pairs(r->open as int, r->close as int)[i].0 as int;
                    let lit = self.spec_scalar_bytes(e, e + 1);
                    is_quoted(lit) && unescape_spec(quoted_body(lit)) is Ok ==> self.spec_object_items(
                        r,
                    )->Some_0[i].0 == unescape_spec(quoted_body(lit))->Ok_0
                },
    {
    }
}

} // verus!
