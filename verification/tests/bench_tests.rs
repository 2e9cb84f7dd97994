//! Benchmark corpus batching and the checksum.

use cujson::bench::agree::mismatching_rows;
use cujson::bench::data::{Batch, Corpus};
use cujson::bench::walk::{
    hash_bytes, hash_int, mix, HashVisitor, TAG_ARR, TAG_BOOL, TAG_INT, TAG_NULL, TAG_OBJ, TAG_STR,
};
use cujson::tape::{Kind, Mode, Node, Visitor};

#[test]
fn mix_and_hash_values() {
    assert_eq!(mix(0, 0), 0);
    assert_eq!(mix(1, 2), 15173113486080567242);
    assert_eq!(hash_bytes(b""), 0);
    assert_eq!(hash_bytes(b"abc"), 18264630709858473109);
    assert_eq!(hash_bytes(b"0123456789"), 5957959357747024391);
    assert_eq!(hash_int(-5), 17094898731113927991);
    assert_eq!(hash_int(-5), mix(TAG_INT, -5i64 as u64));
}

/// Integer-only stand-in for the benchmark's visitor.
struct IntHash(HashVisitor);

impl Visitor for IntHash {
    fn begin_object(&mut self) {
        self.0.begin_object();
    }
    fn end_object(&mut self) {
        self.0.end_object();
    }
    fn begin_array(&mut self) {
        self.0.begin_array();
    }
    fn end_array(&mut self) {
        self.0.end_array();
    }
    fn key(&mut self, key: &str) {
        self.0.key(key);
    }
    fn string(&mut self, value: &str) {
        self.0.string(value);
    }
    fn number(&mut self, raw: &[u8]) {
        let i: i64 = std::str::from_utf8(raw).unwrap().parse().unwrap();
        self.0.integer(i);
    }
    fn boolean(&mut self, value: bool) {
        self.0.boolean(value);
    }
    fn null(&mut self) {
        self.0.null();
    }
}

fn checksum(json: &str) -> (u64, u64) {
    let doc = cujson::cpu::parse(json.as_bytes(), Mode::Standard).unwrap();
    let mut v = IntHash(HashVisitor::new());
    doc.visit(&mut v).unwrap();
    (v.0.rows, v.0.hash)
}

#[test]
fn checksum_ignores_member_order_only() {
    assert_ne!(checksum(r#"{"a":1}"#), checksum(r#"{"a":2}"#));
    assert_ne!(checksum(r#"{"a":1}"#), checksum(r#"{"b":1}"#));
    assert_ne!(checksum(r#"[1,2]"#), checksum(r#"[2,1]"#));
    assert_eq!(checksum(r#"{"a":1,"b":2}"#), checksum(r#"{"b":2,"a":1}"#));
    assert_eq!(checksum("[true,null,\"x\"]").0, 1);
}

#[test]
fn lines_checksum_counts_rows() {
    let doc = cujson::cpu::parse(b"{\"a\":1}\n[2]\n3\n", Mode::Lines).unwrap();
    let mut v = IntHash(HashVisitor::new());
    doc.visit(&mut v).unwrap();
    assert_eq!(v.0.rows, 3);
    assert!(v.0.has_room());
}

#[test]
fn corpus_batches_rows() {
    let mut corpus = Corpus::new();
    let mut cur = Batch::new();
    corpus.push_row(&mut cur, Some("{\"a\":1}"), 16);
    corpus.push_row(&mut cur, None, 16);
    corpus.push_row(&mut cur, Some(""), 16);
    corpus.push_row(&mut cur, Some("[1,\n2]"), 16);
    corpus.push_row(&mut cur, Some("[2]"), 16);
    assert_eq!(cur.bytes, b"{\"a\":1}\n[2]\n".to_vec());
    assert_eq!(cur.rows, 2);
    assert!(corpus.batches.is_empty());
    // 12 + 5 + 1 > 16: the open batch is closed first.
    corpus.push_row(&mut cur, Some("[333]"), 16);
    assert_eq!(corpus.batches.len(), 1);
    assert_eq!(cur.bytes, b"[333]\n".to_vec());
    assert_eq!(cur.rows, 1);
    assert!(corpus.reached(&cur, Some(3)));
    assert!(!corpus.reached(&cur, Some(4)));
    assert!(!corpus.reached(&cur, None));
    corpus.finish(cur);
    assert_eq!(corpus.rows(), 3);
    assert_eq!(corpus.bytes(), 18);
    assert_eq!(corpus.file_rows, 6);
    assert_eq!(corpus.null_rows, 1);
    assert_eq!(corpus.empty_rows, 1);
    assert_eq!(corpus.newline_rows, 1);
    assert_eq!(corpus.max_row_bytes, 7);
}

#[test]
fn a_row_longer_than_a_batch_gets_its_own() {
    let mut corpus = Corpus::new();
    let mut cur = Batch::new();
    corpus.push_row(&mut cur, Some("[1234567890]"), 4);
    assert!(corpus.batches.is_empty());
    assert_eq!(cur.rows, 1);
    corpus.push_row(&mut cur, Some("[1]"), 4);
    assert_eq!(corpus.batches.len(), 1);
    corpus.finish(cur);
    assert_eq!(corpus.rows(), 2);
    let mut empty = Corpus::new();
    empty.finish(Batch::new());
    assert!(empty.batches.is_empty());
}

#[test]
fn object_members_commute_in_the_checksum() {
    let mut v1 = HashVisitor::new();
    v1.begin_object();
    v1.key("x");
    v1.integer(1);
    v1.key("y");
    v1.string("s");
    v1.end_object();
    let mut v2 = HashVisitor::new();
    v2.begin_object();
    v2.key("y");
    v2.string("s");
    v2.key("x");
    v2.integer(1);
    v2.end_object();
    assert_eq!((v1.rows, v1.hash), (v2.rows, v2.hash));
    assert_eq!(v1.rows, 1);
}

#[test]
fn mismatching_rows_lists_every_disagreement() {
    assert_eq!(mismatching_rows(&[1, 2, 3], &[1, 2, 3]), Vec::<usize>::new());
    assert_eq!(mismatching_rows(&[1, 9, 3, 7], &[1, 2, 3, 8]), vec![1, 3]);
    assert_eq!(mismatching_rows(&[1, 2], &[1, 2, 3, 4]), vec![2, 3]);
    assert_eq!(mismatching_rows(&[5, 2, 3], &[1]), vec![0, 1, 2]);
    assert_eq!(mismatching_rows(&[], &[]), Vec::<usize>::new());
}

#[test]
fn split_runs_combine_to_the_whole_run() {
    let mut whole = HashVisitor::new();
    for i in [1i64, -7, 40] {
        whole.integer(i);
    }
    whole.string("tail");
    let mut first = HashVisitor::new();
    first.integer(1);
    first.integer(-7);
    let mut second = HashVisitor::new();
    second.integer(40);
    second.string("tail");
    assert_eq!(whole.rows, first.rows + second.rows);
    assert_eq!(whole.hash, first.hash.wrapping_add(second.hash));
    assert_eq!(whole.hash, second.hash.wrapping_add(first.hash));
    assert!(whole.stack.is_empty());
}

#[test]
fn visit_over_split_line_ranges_combines_to_the_whole_visit() {
    let input = b"{\"a\":[1,2]}\n[3,{\"b\":4}]\n5\n\"six\"\n[[7]]\n{}\n";
    let doc = cujson::cpu::parse(input, Mode::Lines).unwrap();
    let mut whole = IntHash(HashVisitor::new());
    doc.visit(&mut whole).unwrap();
    assert_eq!(whole.0.rows, 6);
    let ranges = doc.split_lines(3);
    assert!(ranges.len() > 1);
    let (mut rows, mut hash) = (0u64, 0u64);
    for r in ranges.into_iter().rev() {
        let mut part = IntHash(HashVisitor::new());
        doc.visit_range(r, &mut part).unwrap();
        assert!(part.0.stack.is_empty());
        rows += part.0.rows;
        hash = hash.wrapping_add(part.0.hash);
    }
    assert_eq!((rows, hash), (whole.0.rows, whole.0.hash));
}

/// The checksum by walking nodes, integers only.
fn node_walk(n: Node<'_>) -> u64 {
    match n.kind() {
        Kind::Null => TAG_NULL,
        Kind::Bool => mix(TAG_BOOL, n.as_bool().unwrap() as u64),
        Kind::Number => hash_int(n.as_i64().unwrap()),
        Kind::String => mix(TAG_STR, hash_bytes(n.as_str().unwrap().as_bytes())),
        Kind::Array => {
            let mut h = TAG_ARR;
            let mut len = 0u64;
            for x in n.iter_array().unwrap() {
                h = mix(h, node_walk(x));
                len += 1;
            }
            mix(h, len)
        }
        Kind::Object => {
            let mut acc = 0u64;
            let mut len = 0u64;
            for (k, x) in n.iter_object().unwrap() {
                acc = acc.wrapping_add(mix(hash_bytes(k.as_bytes()), node_walk(x)));
                len += 1;
            }
            mix(mix(TAG_OBJ, len), acc)
        }
    }
}

#[test]
fn visitor_checksum_matches_integer_node_walk() {
    let j = r#"{"a":[1,2,-0,100,true,null,"\u00e9\n"],"b":{"c":[],"d":{}},"":[[1],[]]}"#;
    let d = cujson::cpu::parse(j.as_bytes(), Mode::Standard).unwrap();
    let mut v = IntHash(HashVisitor::new());
    d.visit(&mut v).unwrap();
    assert_eq!((v.0.rows, v.0.hash), (1, node_walk(d.root())));

    let lines = cujson::cpu::parse(b"[1,{\"k\":2}]\n\n\"s\"\n7\n", Mode::Lines).unwrap();
    let mut v = IntHash(HashVisitor::new());
    lines.visit(&mut v).unwrap();
    let walked = lines.lines();
    assert_eq!(v.0.rows, walked.len() as u64);
    let sum = walked.into_iter().fold(0u64, |h, n| h.wrapping_add(node_walk(n)));
    assert_eq!(v.0.hash, sum);
}
