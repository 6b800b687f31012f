use std::borrow::Cow;
use tfil::filters::{Filter, OscTitleFilter};

#[test]
fn strips_titles_with_semicolons_and_unicode_at_every_split() {
    for code in ["0", "1", "2", "0002"] {
        for terminator in ["\x07", "\x1b\\"] {
            let input = format!("before\x1b]{code};hello;日本語{terminator}after");
            for split in 0..=input.len() {
                let mut filter = OscTitleFilter::new();
                let mut output = filter.filter(&input.as_bytes()[..split]).into_owned();
                output.extend_from_slice(&filter.filter(&input.as_bytes()[split..]));
                output.extend(filter.finish());
                assert_eq!(output, b"beforeafter", "{code}, split {split}");
            }
        }
    }
}

#[test]
fn strips_osc0_title_with_bel() {
    let mut f = OscTitleFilter::new();
    assert_eq!(f.filter(b"a\x1b]0;hello\x07b").as_ref(), b"ab");
}

#[test]
fn strips_osc2_title_with_st() {
    let mut f = OscTitleFilter::new();
    assert_eq!(f.filter(b"a\x1b]2;title\x1b\\b").as_ref(), b"ab");
}

#[test]
fn strips_osc1_icon_with_bel() {
    let mut f = OscTitleFilter::new();
    assert_eq!(f.filter(b"\x1b]1;icon\x07tail").as_ref(), b"tail");
}

#[test]
fn preserves_osc4_palette() {
    let mut f = OscTitleFilter::new();
    let input = b"\x1b]4;5;rgb:00/00/00\x07x";
    assert_eq!(f.filter(input).as_ref(), input);
}

#[test]
fn preserves_osc8_hyperlink_with_st() {
    let mut f = OscTitleFilter::new();
    let input = b"\x1b]8;;https://example.com\x1b\\link\x1b]8;;\x1b\\";
    assert_eq!(f.filter(input).as_ref(), input);
}

#[test]
fn osc_title_passes_through_no_escape_data() {
    let mut f = OscTitleFilter::new();
    let out = f.filter(b"plain text");
    assert!(matches!(out, Cow::Borrowed(_)));
    assert_eq!(out.as_ref(), b"plain text");
}

#[test]
fn osc_title_handles_split_across_chunks() {
    let mut f = OscTitleFilter::new();
    assert_eq!(f.filter(b"a\x1b]0;hel").as_ref(), b"a");
    assert_eq!(f.filter(b"lo\x07b").as_ref(), b"b");
}

#[test]
fn osc_title_handles_split_st_terminator() {
    let mut f = OscTitleFilter::new();
    assert_eq!(f.filter(b"a\x1b]2;title\x1b").as_ref(), b"a");
    assert_eq!(f.filter(b"\\b").as_ref(), b"b");
}

#[test]
fn osc_title_flushes_unfinished_osc_on_finish() {
    let mut f = OscTitleFilter::new();
    assert_eq!(f.filter(b"\x1b]0;partial").as_ref(), b"");
    assert_eq!(f.finish(), b"\x1b]0;partial");
}

#[test]
fn osc_title_lone_escape_then_normal_byte_is_passed_through() {
    let mut f = OscTitleFilter::new();
    // ESC followed by something that isn't ']' must not be eaten.
    assert_eq!(f.filter(b"\x1bOA").as_ref(), b"\x1bOA");
}

#[test]
fn escapes_inside_the_payload_do_not_hide_the_terminator() {
    for (input, expected) in [
        // An ESC before anything but a backslash belongs to the payload.
        (b"a\x1b]2;x\x1by\x07b".as_slice(), b"ab".as_slice()),
        (b"a\x1b]0;t\x1b\x07x", b"ax"),
        (b"a\x1b]0;t\x1b\x1b\\b", b"ab"),
        (b"a\x1b]4;t\x1b\x1b\\b", b"a\x1b]4;t\x1b\x1b\\b"),
    ] {
        for split in 0..=input.len() {
            let mut f = OscTitleFilter::default();
            let mut output = f.filter(&input[..split]).into_owned();
            output.extend_from_slice(&f.filter(&input[split..]));
            output.extend(f.finish());
            assert_eq!(output, expected, "{input:?}, split {split}");
        }
    }
}

#[test]
fn titles_behind_lone_escapes_are_dropped() {
    for (input, expected) in [
        (b"\x1b\x1b]0;t\x07a".as_slice(), b"\x1ba".as_slice()),
        (b"\x1b\x1b\x1b]0;t\x1b\\a", b"\x1b\x1ba"),
        (b"\x1b\x1b]0;t\x07", b"\x1b"),
        // Nothing can be made of the ESC that is left.
        (b"\x1b\x1b]0;t\x07]0;u\x07a", b"a"),
        (b"\x1b\x1b]4;t\x07a", b"\x1b\x1b]4;t\x07a"),
        (b"\x1b\x1b[5 qa", b"\x1b\x1b[5 qa"),
    ] {
        for split in 0..=input.len() {
            let mut f = OscTitleFilter::new();
            let mut output = f.filter(&input[..split]).into_owned();
            output.extend_from_slice(&f.filter(&input[split..]));
            output.extend(f.finish());
            assert_eq!(output, expected, "{input:?}, split {split}");
            let mut again = OscTitleFilter::new();
            let mut twice = again.filter(&output).into_owned();
            twice.extend(again.finish());
            assert_eq!(twice, output);
        }
    }
}
