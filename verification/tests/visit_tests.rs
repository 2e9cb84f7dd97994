//! `Document::visit` emits exactly the events `Node` navigation yields.

use cujson::tape::{build_tape_cpu, Document, Event, Kind, Mode, Node, TapeStorage, Visitor};

#[derive(Default)]
struct Recorder(Vec<String>);

impl Visitor for Recorder {
    fn begin_object(&mut self) {
        self.0.push("{".into());
    }
    fn end_object(&mut self) {
        self.0.push("}".into());
    }
    fn begin_array(&mut self) {
        self.0.push("[".into());
    }
    fn end_array(&mut self) {
        self.0.push("]".into());
    }
    fn key(&mut self, key: &str) {
        self.0.push(format!("k:{key}"));
    }
    fn string(&mut self, value: &str) {
        self.0.push(format!("s:{value}"));
    }
    fn number(&mut self, raw: &[u8]) {
        self.0.push(format!("n:{}", String::from_utf8_lossy(raw)));
    }
    fn boolean(&mut self, value: bool) {
        self.0.push(format!("b:{value}"));
    }
    fn null(&mut self) {
        self.0.push("z".into());
    }
}

fn node_events(n: Node<'_>, out: &mut Vec<String>) {
    match n.kind() {
        Kind::Object => {
            out.push("{".into());
            for (k, c) in n.iter_object().unwrap() {
                out.push(format!("k:{k}"));
                node_events(c, out);
            }
            out.push("}".into());
        }
        Kind::Array => {
            out.push("[".into());
            for c in n.iter_array().unwrap() {
                node_events(c, out);
            }
            out.push("]".into());
        }
        Kind::String => out.push(format!("s:{}", n.as_str().unwrap())),
        Kind::Number => out.push(format!("n:{}", String::from_utf8_lossy(n.raw()))),
        Kind::Bool => out.push(format!("b:{}", n.as_bool().unwrap())),
        Kind::Null => out.push("z".into()),
    }
}

fn check(bytes: &[u8], mode: Mode) {
    let tape = build_tape_cpu(bytes, mode).expect("tape");
    let doc = Document::new(bytes.to_vec(), tape);
    let mut want = vec![];
    match mode {
        Mode::Standard => node_events(doc.root(), &mut want),
        Mode::Lines => doc.lines().into_iter().for_each(|n| node_events(n, &mut want)),
    }
    let mut got = Recorder::default();
    doc.visit(&mut got).expect("visit");
    assert_eq!(got.0, want, "{}", String::from_utf8_lossy(bytes));
    for parts in [1, 2, 3, 7, 64] {
        let mut joined = Recorder::default();
        let ranges = doc.split_lines(parts);
        assert!(ranges.len() <= parts.max(1));
        for r in ranges {
            doc.visit_range(r, &mut joined).expect("visit_range");
        }
        assert_eq!(
            joined.0,
            want,
            "parts={parts}: {}",
            String::from_utf8_lossy(bytes)
        );
    }
}

#[test]
fn standard_edge_cases() {
    for j in [
        "{}",
        "[]",
        "[null]",
        "[[]]",
        r#"{"a":{}}"#,
        r#"{"a":[{}],"b":[[],[null],[1]]}"#,
        r#"{"a b":"x\"yé\\","c":[1,-2.5e3,true,false,null,[],{}]}"#,
        "  {\n  \"a\" : [ 1 ,\n 2 ] ,\n \"b\" : { } \n}  ",
        "42",
        " \"s\" ",
        "null",
    ] {
        check(j.as_bytes(), Mode::Standard);
    }
}

#[test]
fn lines_edge_cases() {
    for j in [
        "{}\n[]\n\n{\"a\":1}\n7\n\"x\"\n",
        "{\"a\":[1,2]}\n{\"b\":null}",
        "1\n2\n3",
        "[null]\n[]\n",
    ] {
        check(j.as_bytes(), Mode::Lines);
    }
}

#[test]
fn mismatched_tape_and_input_does_not_panic() {
    let tape = build_tape_cpu(b"[1]", Mode::Standard).unwrap();
    let doc = Document::new(b"[1]]".to_vec(), tape);
    let _ = doc.visit(&mut Recorder::default());
}

#[test]
fn invalid_utf8_in_a_string_is_an_error() {
    let good = "{\"a\":\"\u{e9}x\"}".as_bytes().to_vec();
    let tape = build_tape_cpu(&good, Mode::Standard).unwrap();
    let mut bad = good.clone();
    let at = bad.iter().position(|&b| b == 0xC3).unwrap();
    bad[at + 1] = b'(';
    let doc = Document::new(bad, tape);
    assert_eq!(
        doc.visit(&mut Recorder::default()),
        Err(cujson::tape::Error::InvalidUtf8)
    );
}

#[test]
fn corrupt_tape_offsets_are_an_error_not_a_read_outside_the_region() {
    let input = br#"{"a":"xyz","b":[1,2]}"#;
    for damage in 0..8 {
        let mut tape = build_tape_cpu(input, Mode::Standard).unwrap();
        let TapeStorage::Owned(s) = &mut tape.structural;
        let n = s.len();
        s[1 + damage % (n - 2)] = if damage % 2 == 0 { 1 } else { 1000 };
        let doc = Document::new(input.to_vec(), tape);
        let _ = doc.visit(&mut Recorder::default());
        for r in doc.split_lines(3) {
            let _ = doc.visit_range(r, &mut Recorder::default());
        }
    }
}

#[test]
fn split_lines_partitions_the_real_entries() {
    let input = b"{\"a\":1}\n[2,3]\n4\n\"x\"\n";
    let doc = Document::new(input.to_vec(), build_tape_cpu(input, Mode::Lines).unwrap());
    let total = doc.tape.len();
    for parts in [0, 1, 2, 3, 5, 100] {
        let ranges = doc.split_lines(parts);
        assert!(!ranges.is_empty());
        assert!(ranges.len() <= parts.max(1));
        assert_eq!(ranges[0].start, 1);
        assert_eq!(ranges[ranges.len() - 1].end, total - 1);
        for w in ranges.windows(2) {
            assert_eq!(w[0].end, w[1].start);
        }
        for r in &ranges {
            assert!(r.start < r.end);
        }
    }
}

#[test]
fn events_list_the_visit() {
    let input = br#"{"k":[1,"v",false,null]}"#;
    let doc = Document::new(input.to_vec(), build_tape_cpu(input, Mode::Standard).unwrap());
    let (events, result) = doc.events();
    assert_eq!(result, Ok(()));
    assert_eq!(
        events,
        vec![
            Event::BeginObject,
            Event::Key("k".to_string()),
            Event::BeginArray,
            Event::Number(b"1".to_vec()),
            Event::Str("v".to_string()),
            Event::Bool(false),
            Event::Null,
            Event::EndArray,
            Event::EndObject,
        ]
    );
}

#[test]
fn adjacent_ranges_visit_like_their_union() {
    let input = b"[1]\n{\"a\":\"b\"}\n2\n";
    let doc = Document::new(input.to_vec(), build_tape_cpu(input, Mode::Lines).unwrap());
    let n = doc.tape.len();
    let mut whole = Recorder::default();
    doc.visit_range(1..n - 1, &mut whole).unwrap();
    // Entry 4 starts the second line; entry 8 ends the third.
    let mut parts = Recorder::default();
    doc.visit_range(1..4, &mut parts).unwrap();
    doc.visit_range(4..8, &mut parts).unwrap();
    doc.visit_range(8..n - 1, &mut parts).unwrap();
    assert_eq!(parts.0, whole.0);
    let mut all = Recorder::default();
    doc.visit(&mut all).unwrap();
    assert_eq!(all.0, whole.0);
}

#[test]
fn visit_never_reads_pair_pos() {
    let input = br#"{"a":[1,{"b":null}],"c":"d"}"#;
    let clean = Document::new(input.to_vec(), build_tape_cpu(input, Mode::Standard).unwrap());
    let mut tape = clean.tape.clone();
    tape.pair_pos = vec![7; clean.tape.len()].into();
    let garbled = Document::new(input.to_vec(), tape);
    let mut a = Recorder::default();
    let mut b = Recorder::default();
    clean.visit(&mut a).unwrap();
    garbled.visit(&mut b).unwrap();
    assert_eq!(a.0, b.0);
}

#[test]
fn a_single_value_is_the_only_line() {
    for j in ["[1,[2]]", " {\"k\":{}} ", "\"s\"", "7"] {
        let doc = cujson::cpu::parse(j.as_bytes(), Mode::Standard).unwrap();
        let lines = doc.lines();
        assert_eq!(lines.len(), 1);
        assert_eq!(lines[0].repr, doc.root().repr);
    }
}
