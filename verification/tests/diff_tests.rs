//! Tape comparison.

use cujson::tape::{build_tape_cpu, diff_tapes, DiffField, Mode, TapeStorage};

fn with_slot(storage: &TapeStorage, idx: usize, f: impl FnOnce(&mut i32)) -> TapeStorage {
    let mut v = storage.to_vec();
    f(&mut v[idx]);
    v.into()
}

#[test]
fn identical_tapes_have_no_diff() {
    let input = b"{\"a\":[1,2],\"b\":3}";
    let a = build_tape_cpu(input, Mode::Standard).unwrap();
    let b = build_tape_cpu(input, Mode::Standard).unwrap();
    assert!(diff_tapes(input, &a, &b).is_none());
}

#[test]
fn structural_mismatch_detected() {
    let input = b"{\"a\":1}";
    let a = build_tape_cpu(input, Mode::Standard).unwrap();
    let mut b = build_tape_cpu(input, Mode::Standard).unwrap();
    b.structural = with_slot(&b.structural, 1, |v| *v += 1);
    let diff = diff_tapes(input, &a, &b).unwrap();
    assert_eq!(diff.field, DiffField::StructuralArray);
    assert_eq!(diff.index, 1);
}

#[test]
fn non_opener_pair_pos_mismatch_is_ignored() {
    let input = b"{\"a\":1}";
    let a = build_tape_cpu(input, Mode::Standard).unwrap();
    let mut b = build_tape_cpu(input, Mode::Standard).unwrap();
    b.pair_pos = with_slot(&b.pair_pos, 2, |v| *v = 999);
    assert!(diff_tapes(input, &a, &b).is_none());
}

#[test]
fn opener_pair_pos_mismatch_detected() {
    let input = b"{\"a\":1}";
    let a = build_tape_cpu(input, Mode::Standard).unwrap();
    let mut b = build_tape_cpu(input, Mode::Standard).unwrap();
    b.pair_pos = with_slot(&b.pair_pos, 1, |v| *v += 1);
    let diff = diff_tapes(input, &a, &b).unwrap();
    assert_eq!(diff.field, DiffField::PairPos);
    assert_eq!(diff.index, 1);
}

#[test]
fn length_mismatch_reported_first() {
    let a = build_tape_cpu(b"[1,2]", Mode::Standard).unwrap();
    let b = build_tape_cpu(b"[1]", Mode::Standard).unwrap();
    let diff = diff_tapes(b"[1,2]", &a, &b).unwrap();
    assert_eq!(diff.field, DiffField::Length);
    assert_eq!((diff.index, diff.a, diff.b), (0, 5, 4));
    assert_eq!(diff.context, "");
}

#[test]
fn diff_context_is_the_input_window() {
    let input = b"{\"key\":[1,2,3]}";
    let a = build_tape_cpu(input, Mode::Standard).unwrap();
    let mut b = build_tape_cpu(input, Mode::Standard).unwrap();
    b.structural = with_slot(&b.structural, 2, |v| *v = 77);
    let diff = diff_tapes(input, &a, &b).unwrap();
    assert_eq!(diff.field, DiffField::StructuralArray);
    assert_eq!((diff.index, diff.a, diff.b), (2, 7, 77));
    // byte 6 is ':'; the window reaches 16 bytes either side, clipped.
    assert_eq!(diff.context, "{\"key\":[1,2,3]}");
    // A mismatch on an artificial entry has no byte position.
    let mut c = build_tape_cpu(input, Mode::Standard).unwrap();
    c.structural = with_slot(&c.structural, 0, |v| *v = 5);
    let diff = diff_tapes(input, &a, &c).unwrap();
    assert_eq!(diff.index, 0);
    assert_eq!(diff.context, "");
}

#[test]
fn diff_is_symmetric_up_to_the_values() {
    let input = b"[[1],[2,3]]";
    let a = build_tape_cpu(input, Mode::Standard).unwrap();
    let mut b = a.clone();
    let mut p = b.pair_pos.to_vec();
    p[2] += 1;
    b.pair_pos = p.into();
    let ab = diff_tapes(input, &a, &b).unwrap();
    let ba = diff_tapes(input, &b, &a).unwrap();
    assert_eq!((ab.index, ab.field), (ba.index, ba.field));
    assert_eq!((ab.a, ab.b), (ba.b, ba.a));
    assert_eq!(ab.field, DiffField::PairPos);
    assert!(diff_tapes(input, &a, &a).is_none());
}
