use std::borrow::Cow;
use tfil::filters::{CursorShapeFilter, Filter};

#[test]
fn strips_decscusr_default() {
    let mut f = CursorShapeFilter::new();
    assert_eq!(f.filter(b"a\x1b[ qb").as_ref(), b"ab");
}

#[test]
fn strips_decscusr_with_param() {
    let mut f = CursorShapeFilter::new();
    assert_eq!(f.filter(b"a\x1b[5 qb").as_ref(), b"ab");
}

#[test]
fn strips_decscusr_double_digit() {
    let mut f = CursorShapeFilter::new();
    assert_eq!(f.filter(b"\x1b[12 q").as_ref(), b"");
}

#[test]
fn preserves_other_csi_with_space_intermediate() {
    // CSI 1 SP @ is SL (scroll left) — not DECSCUSR. Must not be dropped.
    let mut f = CursorShapeFilter::new();
    assert_eq!(f.filter(b"\x1b[1 @").as_ref(), b"\x1b[1 @");
}

#[test]
fn preserves_sgr() {
    let mut f = CursorShapeFilter::new();
    assert_eq!(
        f.filter(b"\x1b[1;31mhi\x1b[m").as_ref(),
        b"\x1b[1;31mhi\x1b[m"
    );
}

#[test]
fn preserves_cursor_move() {
    let mut f = CursorShapeFilter::new();
    assert_eq!(f.filter(b"\x1b[14;5H").as_ref(), b"\x1b[14;5H");
}

#[test]
fn cursor_shape_passes_through_no_escape_data() {
    let mut f = CursorShapeFilter::new();
    let out = f.filter(b"plain text");
    assert!(matches!(out, Cow::Borrowed(_)));
    assert_eq!(out.as_ref(), b"plain text");
}

#[test]
fn cursor_shape_handles_split_across_chunks() {
    let mut f = CursorShapeFilter::new();
    assert_eq!(f.filter(b"a\x1b[5").as_ref(), b"a");
    assert_eq!(f.filter(b" q").as_ref(), b"");
    assert_eq!(f.filter(b"b").as_ref(), b"b");
}

#[test]
fn flushes_unfinished_csi_on_finish() {
    let mut f = CursorShapeFilter::new();
    assert_eq!(f.filter(b"\x1b[5").as_ref(), b"");
    assert_eq!(f.finish(), b"\x1b[5");
}

#[test]
fn cursor_shape_lone_escape_then_normal_byte_is_passed_through() {
    let mut f = CursorShapeFilter::new();
    assert_eq!(f.filter(b"\x1bOA").as_ref(), b"\x1bOA");
}

#[test]
fn strips_decscusr_behind_cut_off_sequences() {
    for (input, expected) in [
        (b"\x1b\x1b[5 qa".as_slice(), b"\x1ba".as_slice()),
        (b"\x1b\x1b\x1b[ qa", b"\x1b\x1ba"),
        (b"\x1b[3\x1b[5 qmb", b"\x1b[3mb"),
        (b"\x1b[\x1b[5 q", b"\x1b["),
        // Nothing can be made of what is left.
        (b"\x1b\x1b[5 q[5 qa", b"a"),
        (b"\x1b[\x1b[5 q5 qa", b"a"),
        (b"\x1b[5\x1b[5 q q", b""),
        (b"\x1b\x1b[5ma", b"\x1b\x1b[5ma"),
        (b"\x1b\x1bOA", b"\x1b\x1bOA"),
        (b"\x1b\x1b", b"\x1b\x1b"),
    ] {
        for split in 0..=input.len() {
            let mut f = CursorShapeFilter::new();
            let mut output = f.filter(&input[..split]).into_owned();
            output.extend_from_slice(&f.filter(&input[split..]));
            output.extend(f.finish());
            assert_eq!(output, expected, "{input:?}, split {split}");
            let mut again = CursorShapeFilter::default();
            let mut twice = again.filter(&output).into_owned();
            twice.extend(again.finish());
            assert_eq!(twice, output);
        }
    }
}
