use std::borrow::Cow;
use tfil::filters::ink_fake_cursor::{count_printed_graphemes, strip_fake_cursor};
use tfil::filters::printable::printable_text_without_cursor_moves;
use tfil::filters::sgr::{parse_sgr_params, Sgr};
use tfil::filters::{Filter, InkFakeCursorFilter};

#[test]
fn grouped_colors_survive_fake_cursor_recognition_at_every_split() {
    for (input, expected) in [
        ("\x1b[38;5;7mX\x1b[27m", "\x1b[38;5;7mX\x1b[27m"),
        ("\x1b[7mX\x1b[38;5;27m", "\x1b[7mX\x1b[38;5;27m"),
        (
            "\x1b[38;5;7;7mX\x1b[48;5;27;27m",
            "\x1b[38;5;7mX\x1b[48;5;27m",
        ),
        (
            "\x1b[38;2;0;7;27;7mX\x1b[58;2;27;0;7;27m",
            "\x1b[38;2;0;7;27mX\x1b[58;2;27;0;7m",
        ),
        (
            "\x1b[38:2::0:7:27;7m日\x1b[48:5:27;27m",
            "\x1b[38:2::0:7:27m日\x1b[48:5:27m",
        ),
        ("\x1b[38;2;7mX\x1b[27m", "\x1b[38;2;7mX\x1b[27m"),
    ] {
        for split in 0..=input.len() {
            let mut filter = InkFakeCursorFilter::new();
            let bytes = input.as_bytes();
            let mut output = filter.filter(&bytes[..split]).into_owned();
            output.extend_from_slice(&filter.filter(&bytes[split..]));
            output.extend(filter.finish());
            assert_eq!(output, expected.as_bytes(), "{input:?}, split {split}");
        }
    }
}

#[test]
fn test_cursor_filter_removes_cursor_hide() {
    let mut filter = InkFakeCursorFilter::new();

    assert_eq!(filter.filter(b"a\x1b[?25lb").as_ref(), b"ab");
}

#[test]
fn test_cursor_filter_removes_split_cursor_hide() {
    let mut filter = InkFakeCursorFilter::new();

    assert_eq!(filter.filter(b"a\x1b[").as_ref(), b"a");
    assert_eq!(filter.filter(b"?25l").as_ref(), b"");
    assert_eq!(filter.filter(b"b").as_ref(), b"b");
}

#[test]
fn test_cursor_filter_preserves_cursor_show_when_hiding_is_suppressed() {
    let mut filter = InkFakeCursorFilter::new();

    assert_eq!(filter.filter(b"a\x1b[?25hb").as_ref(), b"a\x1b[?25hb");
}

#[test]
fn test_cursor_filter_removes_fake_cursor_space() {
    let mut filter = InkFakeCursorFilter::new();

    assert_eq!(filter.filter(b"a\x1b[7m \x1b[27mb").as_ref(), b"a b");
}

#[test]
fn test_cursor_filter_removes_split_fake_cursor_space() {
    let mut filter = InkFakeCursorFilter::new();

    assert_eq!(filter.filter(b"a\x1b[7m").as_ref(), b"a");
    assert_eq!(filter.filter(b" ").as_ref(), b"");
    assert_eq!(filter.filter(b"\x1b[27m").as_ref(), b" ");
    assert_eq!(filter.filter(b"b").as_ref(), b"b");
}

#[test]
fn test_cursor_filter_strips_single_cell_fake_cursor_attributes() {
    let mut filter = InkFakeCursorFilter::new();

    assert_eq!(filter.filter(b"a\x1b[7mf\x1b[27mb").as_ref(), b"afb");
}

#[test]
fn test_cursor_filter_preserves_inverse_keycap_text() {
    let mut filter = InkFakeCursorFilter::new();

    assert_eq!(
        filter.filter(b"a\x1b[7mEnter\x1b[27mb").as_ref(),
        b"a\x1b[7mEnter\x1b[27mb"
    );
}

#[test]
fn test_cursor_filter_strips_fake_cursor_with_compound_sgr_reset_terminator() {
    let mut filter = InkFakeCursorFilter::new();
    // Ink uses \x1b[2;27m (faint + invert-off) in the very first frame.
    // The 27 is consumed; the 2 is preserved so the next cell's faint
    // attribute survives.
    let input = b"a\x1b[7mT\x1b[2;27mry";
    let expected = b"aT\x1b[2mry";
    assert_eq!(filter.filter(input).as_ref(), expected);
}

#[test]
fn test_cursor_filter_strips_fake_cursor_with_color_bundled_terminator() {
    let mut filter = InkFakeCursorFilter::new();
    // Observed in the wild: Ink draws a single inverse cell, advances the
    // cursor with a newline, and then opens the next paint with an SGR
    // that bundles the inverse-off marker with a foreground color.
    let input = b"a\x1b[7m \r\n\x1b[38;5;244;27m\xe2\x94\x80b";
    let expected = b"a \r\n\x1b[38;5;244m\xe2\x94\x80b";
    assert_eq!(filter.filter(input).as_ref(), expected);
}

#[test]
fn test_cursor_filter_strips_fake_cursor_with_zero_sgr_reset_terminator() {
    let mut filter = InkFakeCursorFilter::new();
    let input = b"a\x1b[7mT\x1b[0mb";
    let expected = b"aTb";
    assert_eq!(filter.filter(input).as_ref(), expected);
}

#[test]
fn test_cursor_filter_preserves_unrelated_trailing_sgr() {
    // \x1b[31m doesn't include 0 or 27; not a fake cursor terminator.
    let mut filter = InkFakeCursorFilter::new();
    let input = b"a\x1b[7mEnter\x1b[27m\x1b[31mb";
    assert_eq!(filter.filter(input).as_ref(), input);
}

#[test]
fn test_cursor_filter_strips_fake_cursor_with_full_sgr_reset_terminator() {
    let mut filter = InkFakeCursorFilter::new();
    // Ink uses \x1b[m (full SGR reset) as terminator in some paths.
    let input = "a\x1b[7m\u{672C}\x1b[14;5H\x1b[mb";
    let expected = "a\u{672C}\x1b[14;5Hb";
    assert_eq!(
        filter.filter(input.as_bytes()).as_ref(),
        expected.as_bytes()
    );
}

#[test]
fn test_cursor_filter_strips_fake_cursor_on_fullwidth_char() {
    let mut filter = InkFakeCursorFilter::new();

    assert_eq!(
        filter
            .filter("a\x1b[7m\u{3042}\x1b[27mb".as_bytes())
            .as_ref(),
        "a\u{3042}b".as_bytes()
    );
}

#[test]
fn test_cursor_filter_strips_fake_cursor_on_flag_emoji() {
    let mut filter = InkFakeCursorFilter::new();
    // \u{1F1EF}\u{1F1F5} = 🇯🇵, a single grapheme made of two code points
    let input = "a\x1b[7m\u{1F1EF}\u{1F1F5}\x1b[27mb";
    let expected = "a\u{1F1EF}\u{1F1F5}b";
    assert_eq!(
        filter.filter(input.as_bytes()).as_ref(),
        expected.as_bytes()
    );
}

#[test]
fn test_cursor_filter_strips_fake_cursor_on_zwj_emoji() {
    let mut filter = InkFakeCursorFilter::new();
    // 👨‍👩‍👧‍👦 = man + ZWJ + woman + ZWJ + girl + ZWJ + boy, one grapheme
    let input = "a\x1b[7m\u{1F468}\u{200D}\u{1F469}\u{200D}\u{1F467}\u{200D}\u{1F466}\x1b[27mb";
    let expected = "a\u{1F468}\u{200D}\u{1F469}\u{200D}\u{1F467}\u{200D}\u{1F466}b";
    assert_eq!(
        filter.filter(input.as_bytes()).as_ref(),
        expected.as_bytes()
    );
}

#[test]
fn test_cursor_filter_preserves_two_fullwidth_chars() {
    let mut filter = InkFakeCursorFilter::new();
    // Two graphemes — should not be treated as a virtual cursor
    let input = "a\x1b[7m\u{3042}\u{3044}\x1b[27mb";
    assert_eq!(filter.filter(input.as_bytes()).as_ref(), input.as_bytes());
}

#[test]
fn test_cursor_filter_removes_fake_cursor_attributes_around_cursor_moves() {
    let mut filter = InkFakeCursorFilter::new();

    assert_eq!(
        filter.filter(b"a\x1b[7mf\x1b[6C\x1b[27m b").as_ref(),
        b"af\x1b[6C b"
    );
}

#[test]
fn test_cursor_filter_removes_fake_cursor_attributes_across_newline() {
    let mut filter = InkFakeCursorFilter::new();

    assert_eq!(
        filter.filter(b"a\x1b[7m \r\n\x1b[27mb").as_ref(),
        b"a \r\nb"
    );
}

#[test]
fn test_cursor_filter_removes_fake_cursor_attributes_across_carriage_return() {
    let mut filter = InkFakeCursorFilter::new();

    assert_eq!(
        filter.filter(b"a\x1b[7m \r\x1b[1B\x1b[27mb").as_ref(),
        b"a \r\x1b[1Bb"
    );
}

#[test]
fn test_cursor_filter_preserves_multiline_inverse_text() {
    let mut filter = InkFakeCursorFilter::new();

    assert_eq!(
        filter.filter(b"a\x1b[7mline1\r\nline2\x1b[27mb").as_ref(),
        b"a\x1b[7mline1\r\nline2\x1b[27mb"
    );
}

#[test]
fn test_cursor_filter_preserves_long_inverse_text() {
    let mut filter = InkFakeCursorFilter::new();

    assert_eq!(
        filter
            .filter(b"a\x1b[7m012345678901234567890123456789012\x1b[27mb")
            .as_ref(),
        b"a\x1b[7m012345678901234567890123456789012\x1b[27mb"
    );
}

#[test]
fn test_cursor_filter_finish_flushes_pending_sequence() {
    let mut filter = InkFakeCursorFilter::new();

    assert_eq!(filter.filter(b"a\x1b[7m").as_ref(), b"a");
    assert_eq!(filter.finish(), b"\x1b[7m");
    assert_eq!(filter.filter(b"b").as_ref(), b"b");
}

#[test]
fn test_cursor_filter_strips_fake_cursor_with_color_bundled_starter() {
    // Observed in selection arrows that Ink draws: the inverse-on is
    // folded into an SGR that also resets the previous cell's
    // foreground (`\x1b[39;7m`). The `39` must survive so the trailing
    // text reverts to default foreground correctly.
    let mut filter = InkFakeCursorFilter::new();
    let input = b"a\x1b[38;5;246m>\x1b[39;7m \x1b[mb";
    let expected = b"a\x1b[38;5;246m>\x1b[39m b";
    assert_eq!(filter.filter(input).as_ref(), expected);
}

#[test]
fn test_cursor_filter_strips_fake_cursor_with_color_bundled_starter_and_cursor_move() {
    let mut filter = InkFakeCursorFilter::new();
    let input = b"a\x1b[39;7m \x1b[78C\x1b[mb";
    let expected = b"a\x1b[39m \x1b[78Cb";
    assert_eq!(filter.filter(input).as_ref(), expected);
}

#[test]
fn test_cursor_filter_strips_fake_cursor_with_color_bundled_starter_and_terminator() {
    // Both ends bundled: `\x1b[39;7m` opens, `\x1b[38;5;244;27m` closes.
    let mut filter = InkFakeCursorFilter::new();
    let input = b"a\x1b[39;7m \r\n\x1b[38;5;244;27m\xe2\x94\x80b";
    let expected = b"a\x1b[39m \r\n\x1b[38;5;244m\xe2\x94\x80b";
    assert_eq!(filter.filter(input).as_ref(), expected);
}

#[test]
fn test_cursor_filter_preserves_sgr_without_inverse() {
    // An SGR that doesn't enable inverse must pass through unchanged.
    let mut filter = InkFakeCursorFilter::new();
    let input = b"a\x1b[39m b";
    assert_eq!(filter.filter(input).as_ref(), input);
}

#[test]
fn test_cursor_filter_preserves_sgr_with_reset_then_inverse() {
    // `\x1b[0;7m` resets attributes first, then enables inverse — this
    // is a plain inverse opening, not a candidate for cursor stripping
    // because the leading `0` would cancel everything before it.
    let mut filter = InkFakeCursorFilter::new();
    let input = b"a\x1b[0;7mEnter\x1b[27mb";
    assert_eq!(filter.filter(input).as_ref(), input);
}

#[test]
fn plain_text_is_borrowed_and_held_text_is_not() {
    let mut filter = InkFakeCursorFilter::new();
    assert!(matches!(filter.filter(b"plain text"), Cow::Borrowed(_)));
    assert_eq!(filter.filter(b"\x1b[7m").as_ref(), b"");
    assert!(matches!(filter.filter(b"x"), Cow::Owned(_)));
    assert_eq!(filter.finish(), b"\x1b[7mx");
}

#[test]
fn candidates_are_bounded() {
    // 4 bytes of opening, 56 of text and 5 of closing end just at the limit.
    for (len, stripped) in [(55usize, true), (56, true), (57, false)] {
        // One base character with combining marks is one grapheme.
        let text = format!("a{}", "\u{301}".repeat((len - 1) / 2));
        let text = if text.len() < len { text.replacen('a', "é", 1) } else { text };
        assert_eq!(text.len(), len);
        let input = format!("\x1b[7m{text}\x1b[27m");
        let mut filter = InkFakeCursorFilter::new();
        let mut output = filter.filter(input.as_bytes()).into_owned();
        output.extend(filter.finish());
        let expected = if stripped { text.as_str() } else { input.as_str() };
        assert_eq!(output, expected.as_bytes(), "{len}");
    }
}

#[test]
fn printable_text_skips_cursor_moves() {
    let text = |bytes: &[u8]| printable_text_without_cursor_moves(bytes);
    assert_eq!(text(b"").as_deref(), Some(""));
    assert_eq!(text(b"a\r\n\x1b[14;5Hb").as_deref(), Some("ab"));
    assert_eq!(text("日\u{1F468}".as_bytes()).as_deref(), Some("日\u{1F468}"));
    assert_eq!(text(b"\x1b[14;5"), None);
    assert_eq!(text(b"\x1bM"), None);
    assert_eq!(text(b"a\tb"), None);
    assert_eq!(text(b"a\x7f"), None);
    assert_eq!(text(b"a\xff"), None);
    // Everything behind a character has to be text.
    assert_eq!(text(b"a\x1b[1mb\xff"), None);
}

#[test]
fn graphemes_are_counted_as_printed() {
    assert_eq!(count_printed_graphemes(b"Enter"), Some(5));
    assert_eq!(count_printed_graphemes("e\u{301}\r\n\x1b[C".as_bytes()), Some(1));
    assert_eq!(count_printed_graphemes(b""), Some(0));
    assert_eq!(count_printed_graphemes(b"\x07"), None);
}

#[test]
fn strip_fake_cursor_takes_one_grapheme() {
    let opening = Sgr::parse(b"\x1b[1;7;39m").unwrap();
    let closing = Sgr::parse(b"\x1b[27;31m").unwrap();
    let reset = Sgr::parse(b"\x1b[0;31m").unwrap();
    let mut out = b"-".to_vec();
    assert!(!strip_fake_cursor(&opening, b"x", &closing, Some(2), &mut out));
    assert!(!strip_fake_cursor(&opening, b"x", &closing, None, &mut out));
    assert!(!strip_fake_cursor(&opening, b"", &closing, Some(1), &mut out));
    assert_eq!(out, b"-");
    assert!(strip_fake_cursor(&opening, b"x", &closing, Some(1), &mut out));
    assert_eq!(out, b"-\x1b[1;39mx\x1b[31m");
    out.clear();
    assert!(strip_fake_cursor(&opening, b"x", &reset, Some(1), &mut out));
    assert_eq!(out, b"\x1b[1;39mx");
}

#[test]
fn sgr_parameters_keep_their_bytes() {
    let parse = |params: &'static [u8]| -> Option<Vec<(Option<u16>, &'static [u8])>> {
        let params = parse_sgr_params(params)?;
        Some(params.into_iter().map(|param| (param.code, param.raw)).collect())
    };
    assert_eq!(parse(b""), Some(vec![(Some(0), b"".as_slice())]));
    assert_eq!(
        parse(b"1;;007"),
        Some(vec![
            (Some(1), b"1".as_slice()),
            (Some(0), b""),
            (Some(7), b"007"),
        ])
    );
    assert_eq!(
        parse(b"38;5;7;48;2;0;7;27;58:2::1:2:3;65536"),
        Some(vec![
            (Some(38), b"38;5;7".as_slice()),
            (Some(48), b"48;2;0;7;27"),
            (None, b"58:2::1:2:3"),
            (None, b"65536"),
        ])
    );
    for params in [
        b"38".as_slice(),
        b"38;5",
        b"38;5;",
        b"38;5;x",
        b"38;2;1;2",
        b"38;3;1",
        b"?25",
        b"1:x",
        b"1 ",
    ] {
        assert_eq!(parse(params), None, "{params:?}");
    }
}

#[test]
fn sgrs_are_told_from_other_sequences() {
    let sgr = Sgr::parse(b"\x1b[m").unwrap();
    assert!(sgr.is_reset() && !sgr.turns_inverse_on() && !sgr.turns_inverse_off());
    let sgr = Sgr::parse(b"\x1b[7;27m").unwrap();
    assert!(!sgr.is_reset() && sgr.turns_inverse_on() && sgr.turns_inverse_off());
    let mut out = Vec::new();
    sgr.write_without(7, &mut out);
    assert_eq!(out, b"\x1b[27m");
    assert!(Sgr::parse(b"\x1b[7").is_none());
    assert!(Sgr::parse(b"\x1b[7h").is_none());
    assert!(Sgr::parse(b"\x1b[").is_none());
    assert!(Sgr::parse(b"7m").is_none());
}

#[test]
fn cursor_hide_is_removed_inside_candidates() {
    let long = "0123456789".repeat(5) + "0123456";
    let overlong = format!("\x1b[7m{long}\x1b[?25lx\x1b[27m");
    let overlong_shown = format!("\x1b[7m{long}x\x1b[27m");
    for (input, expected) in [
        ("\x1b[7m \x1b[?25l\x1b[27m", " "),
        ("a\x1b[7m\x1b[?25lx\x1b[?25l\x1b[mb", "axb"),
        ("\x1b[7mEn\x1b[?25lter\x1b[27m", "\x1b[7mEnter\x1b[27m"),
        ("\x1b[7m\x1b[?25l", "\x1b[7m"),
        (overlong.as_str(), overlong_shown.as_str()),
        ("\x1b\x1b[?25la", "\x1ba"),
        ("\x1b[?\x1b[?25lx", "\x1b[?x"),
        // Nothing can be made of what is left.
        ("\x1b\x1b[?25l[?25la", "a"),
        ("\x1b[?\x1b[?25l25la", "a"),
        ("\x1b\x1b[7m[\x1b[27m?25la", "a"),
        ("\x1b[?25h\x1b[25l", "\x1b[?25h\x1b[25l"),
    ] {
        for split in 0..=input.len() {
            let mut filter = InkFakeCursorFilter::new();
            let mut output = filter.filter(&input.as_bytes()[..split]).into_owned();
            output.extend_from_slice(&filter.filter(&input.as_bytes()[split..]));
            output.extend(filter.finish());
            assert_eq!(output, expected.as_bytes(), "{input:?}, split {split}");
        }
    }
}
