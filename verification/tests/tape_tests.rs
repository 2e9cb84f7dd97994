//! CPU reference tape builder and navigator.

use cujson::tape::{build_tape_cpu, Document, Error, Kind, Mode, Node, Resolved};
use serde_json::Value;

fn doc_from(bytes: &[u8], mode: Mode) -> Document {
    let tape = build_tape_cpu(bytes, mode).expect("build_tape_cpu");
    Document::new(bytes.to_vec(), tape)
}

/// The node as a `serde_json::Value`, numbers read as `serde_json` reads
/// them.
fn to_value(n: Node<'_>) -> Value {
    match n.kind() {
        Kind::Null => Value::Null,
        Kind::Bool => Value::Bool(n.as_bool().unwrap_or(false)),
        Kind::Number => {
            let raw = std::str::from_utf8(n.raw()).unwrap_or("0");
            serde_json::from_str(raw).unwrap_or(Value::Null)
        }
        Kind::String => Value::String(n.as_str().unwrap_or_default()),
        Kind::Array => Value::Array(n.iter_array().unwrap().into_iter().map(to_value).collect()),
        Kind::Object => {
            let mut m = serde_json::Map::new();
            for (k, v) in n.iter_object().unwrap() {
                m.insert(k, to_value(v));
            }
            Value::Object(m)
        }
    }
}

fn obj(entries: &[(&str, Value)]) -> Value {
    let mut m = serde_json::Map::new();
    for (k, v) in entries {
        m.insert(k.to_string(), v.clone());
    }
    Value::Object(m)
}

#[test]
fn lines_trailing_newline_at_eof() {
    let bytes = b"{\"a\":1}\n";
    let doc = doc_from(bytes, Mode::Lines);
    let got: Vec<Value> = doc.lines().into_iter().map(to_value).collect();
    assert_eq!(got, vec![obj(&[("a", Value::from(1))])]);
}

#[test]
fn lines_blank_line_between_records() {
    let bytes = b"{\"a\":1}\n\n{\"a\":2}\n";
    let doc = doc_from(bytes, Mode::Lines);
    let got: Vec<Value> = doc.lines().into_iter().map(to_value).collect();
    assert_eq!(
        got,
        vec![obj(&[("a", Value::from(1))]), obj(&[("a", Value::from(2))])]
    );
}

#[test]
fn lines_crlf_endings() {
    let bytes = b"{\"a\":1}\r\n{\"a\":2}\r\n";
    let doc = doc_from(bytes, Mode::Lines);
    let got: Vec<Value> = doc.lines().into_iter().map(to_value).collect();
    assert_eq!(
        got,
        vec![obj(&[("a", Value::from(1))]), obj(&[("a", Value::from(2))])]
    );
}

#[test]
fn lines_chunk_boundary_is_a_noop_for_cpu_builder() {
    let bytes = b"{\"a\":1}\n{\"a\":2}\n{\"a\":3}\n";
    let doc = doc_from(bytes, Mode::Lines);
    let got: Vec<Value> = doc.lines().into_iter().map(to_value).collect();
    let expected: Vec<Value> = (1..=3).map(|i| obj(&[("a", Value::from(i))])).collect();
    assert_eq!(got, expected);
}

#[test]
fn standard_mode_accepts_exactly_one_value() {
    let accepted: &[&[u8]] = &[
        b"{\"a\":1}",
        b" [1, 2] \n",
        b"{}",
        b"42",
        b" \"s\" ",
        b"\"a\\\"b\"",
        b"true",
    ];
    for input in accepted {
        assert!(
            cujson::cpu::parse(input, Mode::Standard).is_ok(),
            "rejected {:?}",
            String::from_utf8_lossy(input)
        );
    }
    let rejected: &[&[u8]] = &[
        b"{\"hello\":\"world\"}\n{\"bonjour\":\"monde\"}",
        b"{\"a\":1} x",
        b"x {\"a\":1}",
        b"[1] [2]",
        b"1 2",
        b"\"a\" \"b\"",
        b"1, 2",
    ];
    for input in rejected {
        assert_eq!(
            cujson::cpu::parse(input, Mode::Standard).err(),
            Some(Error::NotSingleValue),
            "accepted {:?}",
            String::from_utf8_lossy(input)
        );
    }
    let lines = b"{\"hello\":\"world\"}\n{\"bonjour\":\"monde\"}";
    let doc = cujson::cpu::parse(lines, Mode::Lines).unwrap();
    assert_eq!(doc.lines().len(), 2);
}

#[test]
fn garbled_non_opener_pair_pos_changes_nothing() {
    let bytes = br#"{"a":[1,{"b":[true,null]},"x"],"c":{"d":[[],{}]}}"#.to_vec();
    let clean = doc_from(&bytes, Mode::Standard);
    let n = clean.tape.len();
    let mut pair_pos: Vec<i32> = clean.tape.pair_pos.to_vec();
    for idx in 1..n - 1 {
        let byte = bytes[(clean.tape.structural[idx] - 1) as usize];
        if byte != b'{' && byte != b'[' {
            pair_pos[idx] = 0x5A5A_5A5A_u32 as i32;
        }
    }
    let mut tape = clean.tape.clone();
    tape.pair_pos = pair_pos.into();
    let garbled = Document::new(bytes.clone(), tape);
    assert_eq!(garbled.depth(), clean.depth());
    assert!(clean.depth() > 1);
    assert_eq!(to_value(garbled.root()), to_value(clean.root()));
}

#[test]
fn builder_tape_layout_for_small_object() {
    let t = build_tape_cpu(b"{\"a\":[1,2]}", Mode::Standard).unwrap();
    assert_eq!(&t.structural[..], &[0, 1, 5, 6, 8, 10, 11, 7][..]);
    assert_eq!(&t.pair_pos[..], &[7, 6, -1, 5, -1, -1, -1, 0][..]);
    assert_eq!(t.depth, 2);
    assert_eq!(t.len(), 8);
    assert!(!t.is_empty());
}

#[test]
fn builder_errors() {
    assert_eq!(build_tape_cpu(b"", Mode::Standard).err(), Some(Error::EmptyInput));
    assert_eq!(build_tape_cpu(&[0xC3, 0x28], Mode::Standard).err(), Some(Error::InvalidUtf8));
    assert_eq!(build_tape_cpu(b"[1}", Mode::Standard).err(), Some(Error::UnbalancedBrackets));
    assert_eq!(build_tape_cpu(b"]", Mode::Standard).err(), Some(Error::UnbalancedBrackets));
    assert_eq!(build_tape_cpu(b"[[1]", Mode::Standard).err(), Some(Error::UnbalancedBrackets));
    assert_eq!(build_tape_cpu(b"\"abc", Mode::Standard).err(), Some(Error::UnterminatedString));
    assert_eq!(
        cujson::cpu::parse(b"[1, 2", Mode::Lines).err(),
        Some(Error::UnbalancedBrackets)
    );
}

#[test]
fn lines_mode_marks_newlines_standard_does_not() {
    let input = b"[1]\n[2]";
    let s = build_tape_cpu(input, Mode::Standard).unwrap();
    let l = build_tape_cpu(input, Mode::Lines).unwrap();
    assert_eq!(&s.structural[..], &[0, 1, 3, 5, 7, 5][..]);
    assert_eq!(&l.structural[..], &[0, 1, 3, 4, 5, 7, 6][..]);
}

#[test]
fn navigation_reads_values() {
    let doc = doc_from(
        br#"{"a": [1, -2, "x\u00e9\n"], "b": {"c": true, "d": null}, "e~f/g": 7}"#,
        Mode::Standard,
    );
    let root = doc.root();
    assert_eq!(root.kind(), Kind::Object);
    assert_eq!(root.len(), Some(3));
    assert_eq!(root.is_empty(), Some(false));
    let a = root.get("a").unwrap();
    assert_eq!(a.kind(), Kind::Array);
    assert_eq!(a.len(), Some(3));
    assert_eq!(a.index(1).unwrap().as_i64(), Ok(-2));
    assert_eq!(a.index(2).unwrap().as_str(), Ok("x\u{e9}\n".to_string()));
    assert!(a.index(3).is_none());
    assert_eq!(a.index(0).unwrap().raw(), b"1");
    assert_eq!(a.index(0).unwrap().as_bool(), Err(Error::TypeMismatch("bool")));
    assert_eq!(a.index(0).unwrap().as_str(), Err(Error::TypeMismatch("string")));
    assert_eq!(a.index(2).unwrap().as_i64(), Err(Error::InvalidNumber));
    assert_eq!(root.as_i64(), Err(Error::TypeMismatch("number")));
    assert_eq!(root.as_str(), Err(Error::TypeMismatch("string")));
    assert_eq!(doc.pointer("/b/c").map(to_value), Some(Value::Bool(true)));
    assert!(root.get("zz").is_none());
    let d = doc.pointer("/b/d").unwrap();
    assert!(d.is_null());
    assert_eq!(doc.pointer("/e~0f~1g").unwrap().as_i64(), Ok(7));
    assert_eq!(doc.pointer("/a/2").unwrap().as_str(), Ok("x\u{e9}\n".to_string()));
    assert!(doc.pointer("/a/3").is_none());
    assert!(doc.pointer("a").is_none());
    assert_eq!(doc.pointer("").unwrap().kind(), Kind::Object);
    let keys: Vec<String> = root.iter_object().unwrap().into_iter().map(|(k, _)| k).collect();
    assert_eq!(keys, vec!["a".to_string(), "b".to_string(), "e~f/g".to_string()]);
    assert!(root.iter_array().is_none());
    assert!(a.iter_object().is_none());
    assert_eq!(doc.depth(), 2);
}

#[test]
fn as_i64_rejects_out_of_range_and_non_integers() {
    let doc = doc_from(b"[9223372036854775807, 9223372036854775808, 1.5, -0, +1]", Mode::Standard);
    let items = doc.root().iter_array().unwrap();
    assert_eq!(items[0].as_i64(), Ok(i64::MAX));
    assert_eq!(items[1].as_i64(), Err(Error::InvalidNumber));
    assert_eq!(items[2].as_i64(), Err(Error::InvalidNumber));
    assert_eq!(items[3].as_i64(), Ok(0));
    assert_eq!(items[4].as_i64(), Ok(1));
}

#[test]
fn string_escapes_decode() {
    let doc = doc_from(br#"["\"\\\/\b\f\n\r\t", "\ud83d\ude00", "\u00e9", "\x"]"#, Mode::Standard);
    let items = doc.root().iter_array().unwrap();
    assert_eq!(items[0].as_str(), Ok("\"\\/\u{8}\u{c}\n\r\t".to_string()));
    assert_eq!(items[1].as_str(), Ok("\u{1F600}".to_string()));
    assert_eq!(items[2].as_str(), Ok("\u{e9}".to_string()));
    assert_eq!(items[3].as_str(), Err(Error::InvalidEscape));
}

#[test]
fn empty_containers_and_top_level_scalars() {
    let d = doc_from(b"{}", Mode::Standard);
    assert_eq!(d.root().len(), Some(0));
    assert_eq!(d.root().is_empty(), Some(true));
    let d = doc_from(b"[]", Mode::Standard);
    assert_eq!(d.root().iter_array().unwrap().len(), 0);
    let d = doc_from(b" 42 ", Mode::Standard);
    assert_eq!(d.root().kind(), Kind::Number);
    assert_eq!(d.root().as_i64(), Ok(42));
    assert_eq!(d.root().len(), None);
    let d = doc_from(b"\"s\"", Mode::Standard);
    assert_eq!(d.root().as_str(), Ok("s".to_string()));
    let d = doc_from(b"false", Mode::Standard);
    assert_eq!(d.root().as_bool(), Ok(false));
}

#[test]
fn cpu_parse_result_is_the_built_tape() {
    let input = b"{\"k\":[true]}";
    let doc = cujson::cpu::parse(input, Mode::Standard).unwrap();
    let tape = build_tape_cpu(input, Mode::Standard).unwrap();
    assert_eq!(&doc.input[..], &input[..]);
    assert_eq!(&doc.tape.structural[..], &tape.structural[..]);
    assert_eq!(&doc.tape.pair_pos[..], &tape.pair_pos[..]);
    assert_eq!(doc.tape.depth, tape.depth);
    assert_eq!(cujson::cpu::parse(b"", Mode::Standard).err(), Some(Error::EmptyInput));
}

#[test]
fn line_pointer_selects_the_line_first() {
    let doc = doc_from(b"{\"user\":{\"lang\":\"en\"}}\n[1,2]\n", Mode::Lines);
    assert_eq!(doc.line_pointer("/0/user/lang").unwrap().as_str(), Ok("en".to_string()));
    assert_eq!(doc.line_pointer("/1/1").unwrap().as_i64(), Ok(2));
    assert_eq!(doc.line_pointer("/1").unwrap().kind(), Kind::Array);
    assert!(doc.line_pointer("/2").is_none());
    assert!(doc.line_pointer("/x").is_none());
    assert!(doc.line_pointer("0").is_none());
    assert!(doc.line_pointer("").is_none());
    let user = doc.line_pointer("/0/user").unwrap();
    assert_eq!(user.pointer("/lang").unwrap().as_str(), Ok("en".to_string()));
    assert_eq!(user.pointer("").unwrap().kind(), Kind::Object);
    assert!(user.pointer("lang").is_none());
}

#[test]
fn tape_rows_for_a_dump() {
    let input = b"{\"a\":1}";
    let t = build_tape_cpu(input, Mode::Standard).unwrap();
    assert_eq!(t.row(input, 0), (0, b'?', 4));
    assert_eq!(t.row(input, 1), (1, b'{', 3));
    assert_eq!(t.row(input, 2), (5, b':', -1));
    assert_eq!(t.row(input, 3), (7, b'}', -1));
    assert_eq!(t.row(input, 4), (4, b'"', 0));
}

#[test]
fn builder_layout_law_on_a_document() {
    for (input, mode) in [
        (&b"[{\"k\":[1,{}]},\"x\",null]"[..], Mode::Standard),
        (&b"{\"a\":1}\n\n[2]\n"[..], Mode::Lines),
    ] {
        let t = build_tape_cpu(input, mode).unwrap();
        let n = t.len();
        assert_eq!(t.pair_pos.len(), n);
        assert_eq!(t.structural[0], 0);
        assert_eq!(t.structural[n - 1] as usize, n - 1);
        assert_eq!(t.pair_pos[0] as usize, n - 1);
        assert_eq!(t.pair_pos[n - 1], 0);
        for i in 1..n - 1 {
            let off = t.structural[i] as usize;
            assert!(1 <= off && off <= input.len());
            let c = input[off - 1];
            if c == b'{' || c == b'[' {
                let close = t.pair_pos[i] as usize;
                assert!(i < close && close < n - 1);
                let cc = input[t.structural[close] as usize - 1];
                assert_eq!(cc, if c == b'{' { b'}' } else { b']' });
            } else {
                assert_eq!(t.pair_pos[i], -1);
            }
        }
    }
}

#[test]
fn unicode_escapes_take_exactly_four_hex_digits() {
    let doc = doc_from(br#"["\u+0e9", "\u00E9", "\u0e9", "\u00e9x"]"#, Mode::Standard);
    let items = doc.root().iter_array().unwrap();
    assert_eq!(items[0].as_str(), Err(Error::InvalidEscape));
    assert_eq!(items[1].as_str(), Ok("\u{e9}".to_string()));
    assert_eq!(items[2].as_str(), Err(Error::InvalidEscape));
    assert_eq!(items[3].as_str(), Ok("\u{e9}x".to_string()));
}

#[test]
fn pointer_array_indexes_follow_rfc_6901() {
    let doc = doc_from(br#"{"a":[10,20,30],"b/c":1,"~1":2}"#, Mode::Standard);
    assert_eq!(doc.pointer("/a/1").unwrap().raw(), b"20");
    assert_eq!(doc.pointer("/a/0").unwrap().raw(), b"10");
    assert!(doc.pointer("/a/01").is_none());
    assert!(doc.pointer("/a/+1").is_none());
    assert!(doc.pointer("/a/").is_none());
    assert!(doc.pointer("/a/3").is_none());
    assert_eq!(doc.pointer("/b~1c").unwrap().raw(), b"1");
    assert_eq!(doc.pointer("/~01").unwrap().raw(), b"2");
}

#[test]
fn encoded_strings_unescape_to_themselves() {
    for s in ["plain", "q\"b\\s/", "\u{0}\u{1f}\u{8}\u{c}\n\r\t\u{7f}", "é😀 x", ""] {
        let encoded = serde_json::to_string(s).unwrap();
        let input = format!("[{encoded}]");
        let doc = doc_from(input.as_bytes(), Mode::Standard);
        let item = doc.root().index(0).unwrap();
        let text = item.as_str().unwrap();
        assert_eq!(text, s);
        assert!(text.len() <= encoded.len() - 2);
    }
}

#[test]
fn resolve_pointer_as_the_python_binding_reads_it() {
    let lines = doc_from(b"{\"user\":\"a\"}\n{\"user\":\"b\"}\n", Mode::Lines);
    assert!(matches!(lines.resolve_pointer(true, ""), Resolved::AllLines));
    match lines.resolve_pointer(true, "/1/user") {
        Resolved::Value(n) => assert_eq!(n.as_str(), Ok("b".to_string())),
        _ => panic!("line 1's user"),
    }
    assert!(matches!(lines.resolve_pointer(true, "/2"), Resolved::Missing));
    assert!(matches!(lines.resolve_pointer(true, "user"), Resolved::Missing));
    let standard = doc_from(br#"{"a":[1,2]}"#, Mode::Standard);
    match standard.resolve_pointer(false, "") {
        Resolved::Value(n) => assert_eq!(n.kind(), Kind::Object),
        _ => panic!("the root"),
    }
    assert!(matches!(standard.resolve_pointer(false, "/a/01"), Resolved::Missing));
}

#[test]
fn any_json_escaping_unescapes_to_the_string() {
    let doc = doc_from(
        br#"["\/\u0041\u00e9\u00E9\uD83D\uDE00\ud83d\ude00\"x\\", "A\u0042\n"]"#,
        Mode::Standard,
    );
    let items = doc.root().iter_array().unwrap();
    let text = items[0].as_str().unwrap();
    assert_eq!(text, "/A\u{e9}\u{e9}\u{1F600}\u{1F600}\"x\\");
    assert!(text.len() <= items[0].raw().len() - 2);
    assert_eq!(items[1].as_str(), Ok("AB\n".to_string()));
}
