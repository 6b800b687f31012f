use tfil::filters::{
    contains_code, tmux_wrap, Filter, TmuxOscPassthroughFilter, TMUX_END, TMUX_START,
};

fn f22() -> TmuxOscPassthroughFilter {
    TmuxOscPassthroughFilter::new(vec![22])
}

#[test]
fn wraps_unicode_payload_without_changing_its_bytes() {
    let input = "\x1b]22;日本語;pointer\x1b\\".as_bytes();
    let expected = tmux_wrap(input);
    for split in 0..=input.len() {
        let mut filter = f22();
        let mut output = filter.filter(&input[..split]).into_owned();
        output.extend_from_slice(&filter.filter(&input[split..]));
        output.extend(filter.finish());
        assert_eq!(output, expected);
    }
}

#[test]
fn wraps_listed_osc_with_bel() {
    let mut f = f22();
    assert_eq!(
        f.filter(b"a\x1b]22;pointer\x07b").as_ref(),
        b"a\x1bPtmux;\x1b\x1b]22;pointer\x07\x1b\\b"
    );
}

#[test]
fn wraps_listed_osc_with_st() {
    let mut f = f22();
    assert_eq!(
        f.filter(b"\x1b]22;pointer\x1b\\").as_ref(),
        b"\x1bPtmux;\x1b\x1b]22;pointer\x1b\x1b\\\x1b\\"
    );
}

#[test]
fn wraps_osc_without_semicolon() {
    let mut f = f22();
    assert_eq!(
        f.filter(b"\x1b]22\x07").as_ref(),
        b"\x1bPtmux;\x1b\x1b]22\x07\x1b\\"
    );
}

#[test]
fn passes_unlisted_osc() {
    let mut f = f22();
    let input = b"\x1b]8;;https://example.com\x1b\\link";
    assert_eq!(f.filter(input).as_ref(), input);
}

#[test]
fn does_not_wrap_code_with_matching_prefix() {
    let mut f = TmuxOscPassthroughFilter::new(vec![2]);
    let input = b"\x1b]22;pointer\x07";
    assert_eq!(f.filter(input).as_ref(), input);
}

#[test]
fn passes_non_numeric_osc() {
    let mut f = f22();
    let input = b"\x1b]P1ff0000\x07";
    assert_eq!(f.filter(input).as_ref(), input);
}

#[test]
fn passes_csi_and_plain_text() {
    let mut f = f22();
    let input = b"hi\x1b[1;31mred\x1b[m";
    assert_eq!(f.filter(input).as_ref(), input);
}

#[test]
fn tmux_osc_passthrough_handles_split_across_chunks() {
    let mut f = f22();
    assert_eq!(f.filter(b"a\x1b]22;po").as_ref(), b"a");
    assert_eq!(
        f.filter(b"inter\x07b").as_ref(),
        b"\x1bPtmux;\x1b\x1b]22;pointer\x07\x1b\\b"
    );
}

#[test]
fn tmux_osc_passthrough_handles_split_st_terminator() {
    let mut f = f22();
    assert_eq!(f.filter(b"\x1b]22;default\x1b").as_ref(), b"");
    assert_eq!(
        f.filter(b"\\x").as_ref(),
        b"\x1bPtmux;\x1b\x1b]22;default\x1b\x1b\\\x1b\\x"
    );
}

#[test]
fn tmux_osc_passthrough_flushes_unfinished_osc_on_finish() {
    let mut f = f22();
    assert_eq!(f.filter(b"\x1b]22;par").as_ref(), b"");
    assert_eq!(f.finish(), b"\x1b]22;par");
}

#[test]
fn tmux_wrap_doubles_escapes() {
    assert_eq!(
        tmux_wrap(b"\x1b]22;pointer\x1b\\"),
        b"\x1bPtmux;\x1b\x1b]22;pointer\x1b\x1b\\\x1b\\"
    );
}

/// What tmux hands on of a passthrough.
fn unwrap(wrapped: &[u8]) -> Vec<u8> {
    let payload = wrapped.strip_prefix(&TMUX_START).unwrap();
    let payload = payload.strip_suffix(&TMUX_END).unwrap();
    let mut out = Vec::new();
    let mut bytes = payload.iter();
    while let Some(&byte) = bytes.next() {
        if byte == 0x1b {
            assert_eq!(bytes.next(), Some(&0x1b));
        }
        out.push(byte);
    }
    out
}

#[test]
fn wrapped_sequences_are_handed_on_unchanged() {
    for seq in [
        b"".as_slice(),
        b"\x1b",
        b"\x1b\x1b\\",
        b"\x1b]22;pointer\x1b\\",
        "\x1b]22;日本語\x07".as_bytes(),
    ] {
        assert_eq!(unwrap(&tmux_wrap(seq)), seq);
    }
}

#[test]
fn without_codes_nothing_is_wrapped() {
    let mut f = TmuxOscPassthroughFilter::default();
    let input = b"\x1b]22;pointer\x07";
    assert_eq!(f.filter(input).as_ref(), input);
    assert!(contains_code(&[4, 22], 22));
    assert!(!contains_code(&[4, 22], 2));
}

#[test]
fn wraps_listed_osc_behind_lone_escapes() {
    let mut f = f22();
    assert_eq!(
        f.filter(b"\x1b\x1b]22;pointer\x07b").as_ref(),
        b"\x1b\x1bPtmux;\x1b\x1b]22;pointer\x07\x1b\\b"
    );
}
