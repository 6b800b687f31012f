use tfil::codex_mouse_ui::menu::{
    is_continuation, is_marker, menu_lookup_in, parse_option_line,
};
use tfil::codex_mouse_ui::report::{encode_x10, parse_sgr_mouse, MouseEvent};
use tfil::codex_mouse_ui::steering::{Steering, MAX_PENDING};
use tfil::codex_mouse_ui::{CodexMouseUi, MOUSE_ENABLE, POINTER_OFF, POINTER_ON};
use tfil::filters::tmux_wrap;

fn codex_menu() -> String {
    [
        "  Would you like to run the following command?\r\n",
        "\r\n",
        "  $ pnpm add --dir .tmp/converter node-html-markdown\r\n",
        "\r\n",
        "\u{203A} 1. Yes, proceed (y)\r\n",
        "  2. Yes, and don't ask again for commands that start with `pnpm add --dir .tmp/converter node-\r\n",
        "     html-markdown` (p)\r\n",
        "  3. No, and tell Codex what to do differently (esc)\r\n",
        "\r\n",
        "  Press enter to confirm or esc to cancel\r\n",
        "\r\n",
        "\u{203A} Summarize recent commits\r\n",
    ]
    .concat()
}

fn menu() -> CodexMouseUi {
    let mut m = CodexMouseUi::new(24, 100);
    m.on_output(codex_menu().as_bytes());
    m
}

fn sgr(code: u16, col: u16, row: u16, release: bool) -> Vec<u8> {
    format!(
        "\x1b[<{};{};{}{}",
        code,
        col + 1,
        row + 1,
        if release { 'm' } else { 'M' }
    )
    .into_bytes()
}

fn menu_moves_in(rows: &[String], clicked: usize) -> Option<i32> {
    menu_lookup_in(rows, clicked).map(|l| l.clicked_idx as i32 - l.marked_idx as i32)
}

#[test]
fn parses_option_lines() {
    assert_eq!(
        parse_option_line("\u{203A} 1. Yes, proceed (y)"),
        Some(true)
    );
    assert_eq!(parse_option_line("\u{276F} 2. No"), Some(true));
    assert_eq!(
        parse_option_line("  3. No, and tell Codex (esc)"),
        Some(false)
    );
    assert_eq!(parse_option_line("  12."), Some(false));
    assert_eq!(
        parse_option_line("  \u{203A} 1. Option A (Recommended)  Select the first menu item."),
        Some(true)
    );
    assert_eq!(
        parse_option_line("    2. Option B                Select the second menu item."),
        Some(false)
    );
    assert_eq!(parse_option_line("\u{203A} Summarize recent commits"), None);
    assert_eq!(parse_option_line("  Question 1/1 (1 unanswered)"), None);
    assert_eq!(parse_option_line("  1.5 released"), None);
    assert_eq!(parse_option_line("• 1. bullet"), None);
    assert_eq!(parse_option_line("1. top-level list"), None);
    assert_eq!(parse_option_line(""), None);
    assert_eq!(parse_option_line("   "), None);
}

#[test]
fn resolves_indented_menu() {
    let rows: Vec<String> = [
        "",
        "  Question 1/1 (1 unanswered)",
        "  Click an option to test mouse selection.",
        "",
        "  \u{203A} 1. Option A (Recommended)  Select the first menu item.",
        "    2. Option B                Select the second menu item.",
        "    3. Option C                Select the third menu item.",
        "    4. None of the above       Optionally, add details in notes (tab).",
        "",
        "  tab to add notes | enter to submit answer | esc to interrupt",
    ]
    .iter()
    .map(|s| s.to_string())
    .collect();
    assert_eq!(menu_moves_in(&rows, 4), Some(0));
    assert_eq!(menu_moves_in(&rows, 6), Some(2));
    assert_eq!(menu_moves_in(&rows, 7), Some(3));
    assert_eq!(menu_moves_in(&rows, 2), None);
    assert_eq!(menu_moves_in(&rows, 9), None);
}

#[test]
fn resolves_menu_moves() {
    let rows: Vec<String> = codex_menu().split("\r\n").map(|s| s.to_string()).collect();
    assert_eq!(menu_moves_in(&rows, 4), Some(0)); // marked option 1
    assert_eq!(menu_moves_in(&rows, 5), Some(1)); // option 2
    assert_eq!(menu_moves_in(&rows, 6), Some(1)); // wrapped tail of option 2
    assert_eq!(menu_moves_in(&rows, 7), Some(2)); // option 3
    assert_eq!(menu_moves_in(&rows, 9), None); // "Press enter to confirm"
    assert_eq!(menu_moves_in(&rows, 11), None); // composer prompt
    assert_eq!(menu_moves_in(&rows, 0), None); // question text
    assert_eq!(menu_moves_in(&rows, 99), None); // out of range
}

#[test]
fn numbered_list_without_marker_is_not_a_menu() {
    let rows: Vec<String> = ["  1. first", "  2. second", "  3. third"]
        .iter()
        .map(|s| s.to_string())
        .collect();
    assert_eq!(menu_moves_in(&rows, 1), None);
}

#[test]
fn upward_selection_yields_negative_moves() {
    let rows: Vec<String> = ["  1. first", "\u{203A} 2. second"]
        .iter()
        .map(|s| s.to_string())
        .collect();
    assert_eq!(menu_moves_in(&rows, 0), Some(-1));
}

#[test]
fn click_on_option_sends_arrows_and_enter() {
    let mut m = menu();
    let (to_child, _) = m.on_input(&sgr(0, 10, 7, false));
    assert_eq!(to_child, b"\x1b[B\x1b[B\r");
    // The paired release is swallowed.
    let (to_child, _) = m.on_input(&sgr(0, 10, 7, true));
    assert_eq!(to_child, b"");
}

#[test]
fn click_on_marked_option_sends_enter_only() {
    let mut m = menu();
    let (to_child, _) = m.on_input(&sgr(0, 3, 4, false));
    assert_eq!(to_child, b"\r");
}

#[test]
fn click_uses_application_cursor_arrows_when_set() {
    let mut m = menu();
    m.on_output(b"\x1b[?1h");
    let (to_child, _) = m.on_input(&sgr(0, 3, 7, false));
    assert_eq!(to_child, b"\x1bOB\x1bOB\r");
}

#[test]
fn click_outside_menu_is_dropped_when_child_has_no_mouse() {
    let mut m = menu();
    let (to_child, _) = m.on_input(&sgr(0, 0, 0, false));
    assert_eq!(to_child, b"");
}

#[test]
fn click_outside_menu_is_forwarded_when_child_uses_sgr() {
    let mut m = menu();
    m.on_output(b"\x1b[?1000h\x1b[?1006h");
    let seq = sgr(0, 0, 0, false);
    let (to_child, _) = m.on_input(&seq);
    assert_eq!(to_child, seq);
}

#[test]
fn wheel_is_forwarded_in_x10_encoding_when_child_lacks_sgr() {
    let mut m = menu();
    m.on_output(b"\x1b[?1000h");
    let (to_child, _) = m.on_input(&sgr(64, 5, 5, false));
    assert_eq!(to_child, b"\x1b[M\x60\x26\x26");
}

#[test]
fn motion_outside_menu_is_not_forwarded_to_press_only_child() {
    let mut m = menu();
    m.on_output(b"\x1b[?1000h\x1b[?1006h");
    let (to_child, _) = m.on_input(&sgr(35, 5, 0, false));
    assert_eq!(to_child, b"");
}

#[test]
fn hover_steers_selection_and_click_confirms() {
    let mut m = menu();
    // Hover option 3: two steps down.
    let (to_child, _) = m.on_input(&sgr(35, 10, 7, false));
    assert_eq!(to_child, b"\x1b[B\x1b[B");
    // Motion on the same option resends nothing while the child's
    // redraw is still in flight.
    let (to_child, _) = m.on_input(&sgr(35, 12, 7, false));
    assert_eq!(to_child, b"");
    // Click confirms without extra arrows.
    let (to_child, _) = m.on_input(&sgr(0, 12, 7, false));
    assert_eq!(to_child, b"\r");
}

#[test]
fn quick_hover_across_options_sends_incremental_arrows() {
    let mut m = menu();
    let (to_child, _) = m.on_input(&sgr(35, 10, 5, false)); // option 2
    assert_eq!(to_child, b"\x1b[B");
    // No redraw has landed yet; hovering option 3 adds one step.
    let (to_child, _) = m.on_input(&sgr(35, 10, 7, false));
    assert_eq!(to_child, b"\x1b[B");
}

#[test]
fn steering_resumes_from_redrawn_marker() {
    let mut m = menu();
    let (to_child, _) = m.on_input(&sgr(35, 10, 7, false)); // steer to option 3
    assert_eq!(to_child, b"\x1b[B\x1b[B");
    // The child redraws with the marker on option 3.
    let redraw = codex_menu()
        .replace("\u{203A} 1.", "  1.")
        .replace("  3.", "\u{203A} 3.");
    m.on_output(format!("\x1b[H{redraw}").as_bytes());
    // The model has caught up: hovering option 3 clears steering.
    let (to_child, _) = m.on_input(&sgr(35, 10, 7, false));
    assert_eq!(to_child, b"");
    // Hover option 1: two steps up from the redrawn marker.
    let (to_child, _) = m.on_input(&sgr(35, 10, 4, false));
    assert_eq!(to_child, b"\x1b[A\x1b[A");
}

#[test]
fn hover_toggles_pointer_shape() {
    let mut m = menu();
    let (_, to_term) = m.on_input(&sgr(35, 10, 5, false));
    assert_eq!(to_term, POINTER_ON);
    let (_, to_term) = m.on_input(&sgr(35, 10, 5, false));
    assert_eq!(to_term, b"");
    let (_, to_term) = m.on_input(&sgr(35, 10, 9, false));
    assert_eq!(to_term, POINTER_OFF);
}

#[test]
fn tmux_pointer_mode_wraps_pointer_oscs() {
    let mut m = menu();
    m.set_tmux_pointer(true);
    let (_, to_term) = m.on_input(&sgr(35, 10, 4, false));
    assert_eq!(to_term, tmux_wrap(&POINTER_ON));
}

#[test]
fn pointer_resets_when_menu_disappears_under_mouse() {
    let mut m = menu();
    let (_, to_term) = m.on_input(&sgr(35, 10, 5, false));
    assert_eq!(to_term, POINTER_ON);
    let out = m.on_output(b"\x1b[2J");
    assert!(out.windows(POINTER_OFF.len()).any(|w| w == POINTER_OFF));
}

#[test]
fn keyboard_input_passes_through() {
    let mut m = menu();
    let (to_child, to_term) = m.on_input(b"hello\x1b[A\x1bOP\x1b\x1b");
    assert_eq!(to_child, b"hello\x1b[A\x1bOP\x1b");
    assert_eq!(to_term, b"");
    assert_eq!(m.finish_input(), b"\x1b");
}

#[test]
fn mouse_sequence_split_across_chunks() {
    let mut m = menu();
    let seq = sgr(0, 3, 7, false);
    let (a, b) = seq.split_at(4);
    let (to_child, _) = m.on_input(a);
    assert_eq!(to_child, b"");
    let (to_child, _) = m.on_input(b);
    assert_eq!(to_child, b"\x1b[B\x1b[B\r");
}

#[test]
fn overlong_candidate_is_flushed() {
    let mut m = menu();
    let mut seq = b"\x1b[<".to_vec();
    seq.extend_from_slice(&[b'1'; MAX_PENDING + 8]);
    let (to_child, _) = m.on_input(&seq);
    assert_eq!(&to_child, &seq[..seq.len().min(to_child.len())]);
    assert!(!to_child.is_empty());
}

#[test]
fn child_mode_change_triggers_reassert() {
    let mut m = menu();
    let out = m.on_output(b"\x1b[?1000h");
    assert!(out.windows(MOUSE_ENABLE.len()).any(|w| w == MOUSE_ENABLE));
    // Steady-state output does not re-assert.
    let out = m.on_output(b"plain text");
    assert!(!out.windows(MOUSE_ENABLE.len()).any(|w| w == MOUSE_ENABLE));
}

#[test]
fn mode_sequence_split_across_chunks_triggers_reassert() {
    let mut m = menu();
    let out = m.on_output(b"text\x1b[?1");
    let hit1 = out.windows(MOUSE_ENABLE.len()).any(|w| w == MOUSE_ENABLE);
    let out = m.on_output(b"004h more");
    let hit2 = out.windows(MOUSE_ENABLE.len()).any(|w| w == MOUSE_ENABLE);
    assert!(hit1 || hit2);
}

#[test]
fn parses_sgr_reports() {
    assert_eq!(
        parse_sgr_mouse(b"\x1b[<0;4;8M"),
        Some(MouseEvent {
            code: 0,
            col: 3,
            row: 7,
            release: false
        })
    );
    assert_eq!(
        parse_sgr_mouse(b"\x1b[<35;1;1m"),
        Some(MouseEvent {
            code: 35,
            col: 0,
            row: 0,
            release: true
        })
    );
    assert_eq!(parse_sgr_mouse(b"\x1b[<0;0;0M"), None); // 1-based coords
    assert_eq!(parse_sgr_mouse(b"\x1b[<0;1M"), None);
    assert_eq!(parse_sgr_mouse(b"\x1b[<0;1;1;1M"), None);
}

#[test]
fn reports_may_carry_plus_signs_but_nothing_else() {
    assert_eq!(
        parse_sgr_mouse(b"\x1b[<+0;+04;008M"),
        Some(MouseEvent {
            code: 0,
            col: 3,
            row: 7,
            release: false
        })
    );
    for seq in [
        b"\x1b[<+;1;1M".as_slice(),
        b"\x1b[<;1;1M",
        b"\x1b[<0;-1;1M",
        b"\x1b[<0;65536;1M",
        b"\x1b[<0;1;1",
        b"\x1b[<M",
        b"\x1b[0;1;1M",
        b"",
    ] {
        assert_eq!(parse_sgr_mouse(seq), None, "{seq:?}");
    }
    assert!(parse_sgr_mouse(b"\x1b[<65535;65535;65535m").is_some());
}

#[test]
fn x10_encoding_has_room_for_one_byte_per_number() {
    let event = |code, col, row, release| MouseEvent {
        code,
        col,
        row,
        release,
    };
    assert_eq!(
        encode_x10(&event(0, 0, 0, false)),
        Some(b"\x1b[M\x20\x21\x21".to_vec())
    );
    // A release does not say which button it was.
    assert_eq!(
        encode_x10(&event(17, 1, 2, true)),
        Some(b"\x1b[M\x33\x22\x23".to_vec())
    );
    assert_eq!(
        encode_x10(&event(223, 222, 222, false)),
        Some(b"\x1b[M\xff\xff\xff".to_vec())
    );
    assert_eq!(encode_x10(&event(224, 0, 0, false)), None);
    assert_eq!(encode_x10(&event(0, 223, 0, false)), None);
    assert_eq!(encode_x10(&event(0, 0, 223, false)), None);
    assert_eq!(encode_x10(&event(65535, 0, 0, false)), None);
}

#[test]
fn continuations_are_indented_text() {
    assert!(is_continuation("   wrapped"));
    assert!(is_continuation("     \u{203A} wrapped"));
    assert!(!is_continuation("  too little"));
    assert!(!is_continuation("     2. option"));
    assert!(!is_continuation("      "));
    assert!(!is_continuation("   \u{3000}\t"));
    assert!(!is_continuation(""));
    assert!(is_marker('\u{203A}') && is_marker('\u{276F}') && !is_marker('>'));
}

#[test]
fn menus_end_after_too_many_continuations() {
    let lines = |count: usize| -> Vec<String> {
        let mut lines = vec!["\u{203A} 1. first".to_string()];
        lines.extend(std::iter::repeat("    wrapped".to_string()).take(count));
        lines.push("  2. second".to_string());
        lines
    };
    let menu = menu_lookup_in(&lines(3), 3).unwrap();
    assert_eq!(menu.options, [0, 4]);
    assert_eq!((menu.marked_idx, menu.clicked_idx), (0, 0));
    assert_eq!(menu_lookup_in(&lines(4), 0), None);
    assert_eq!(menu_lookup_in(&lines(4), 4), None);
    assert_eq!(menu_lookup_in(&lines(4), 5), None);
    let two_marked = ["\u{203A} 1. a", "\u{276F} 2. b"].map(String::from);
    assert_eq!(menu_lookup_in(&two_marked, 0), None);
    assert_eq!(menu_lookup_in(&two_marked[..1], 0), None);
    assert_eq!(menu_lookup_in(&[], 0), None);
}

#[test]
fn second_release_is_forwarded_like_any_other() {
    let mut m = menu();
    m.on_output(b"\x1b[?1000h\x1b[?1006h");
    m.on_input(&sgr(0, 10, 7, false));
    let release = sgr(0, 0, 0, true);
    let (to_child, _) = m.on_input(&release);
    assert_eq!(to_child, b"");
    let (to_child, _) = m.on_input(&release);
    assert_eq!(to_child, release);
}

#[test]
fn hovering_back_over_the_marked_option_sends_nothing() {
    let mut m = menu();
    m.on_input(&sgr(35, 10, 7, false));
    let (to_child, _) = m.on_input(&sgr(35, 10, 4, false));
    assert_eq!(to_child, b"");
}

#[test]
fn child_is_sent_what_it_asked_for() {
    let press = sgr(0, 0, 0, false);
    let release = sgr(0, 0, 0, true);
    let drag = sgr(32, 0, 0, false);
    let hover = sgr(35, 0, 0, false);
    for (mode, wanted) in [
        (b"\x1b[?9h".as_slice(), [true, false, false, false]),
        (b"\x1b[?1000h", [true, true, false, false]),
        (b"\x1b[?1002h", [true, true, true, false]),
        (b"\x1b[?1003h", [true, true, true, true]),
    ] {
        for (event, wanted) in [&press, &release, &drag, &hover].into_iter().zip(wanted) {
            let mut m = menu();
            m.on_output(mode);
            m.on_output(b"\x1b[?1006h");
            let (to_child, _) = m.on_input(event);
            assert_eq!(to_child == *event, wanted, "{mode:?} {event:?}");
            assert_eq!(to_child.is_empty(), !wanted);
        }
    }
}

#[test]
fn input_may_be_cut_at_every_byte() {
    let mut input = b"ab\x1b[<x\x1b".to_vec();
    input.extend(sgr(35, 10, 5, false));
    input.extend(b"\x1b[<1;1M");
    input.extend(sgr(0, 10, 7, false));
    let (whole, term) = menu().on_input(&input);
    for split in 0..=input.len() {
        let mut m = menu();
        let (mut to_child, mut to_term) = m.on_input(&input[..split]);
        let (more, more_term) = m.on_input(&input[split..]);
        to_child.extend(more);
        to_term.extend(more_term);
        assert_eq!(to_child, whole, "split {split}");
        assert_eq!(to_term, term, "split {split}");
    }
}

#[test]
fn mode_changes_are_seen_at_every_cut() {
    let output = b"text\x1b[?1004h";
    for split in 0..=output.len() {
        let mut m = menu();
        let mut out = m.on_output(&output[..split]);
        out.extend(m.on_output(&output[split..]));
        assert_eq!(out, MOUSE_ENABLE, "split {split}");
        assert!(m.is_active());
    }
}

#[test]
fn mouse_reporting_is_active_once_enabled() {
    let mut m = CodexMouseUi::new(24, 80);
    assert!(!m.is_active());
    m.on_output(b"plain");
    assert!(!m.is_active());
    assert_eq!(m.on_output(b"\x1b[?1049h"), MOUSE_ENABLE);
    assert!(m.is_active());
    m.on_output(b"\x1b[?1049l");
    assert!(m.is_active());
}

#[test]
fn screen_model_survives_small_sizes() {
    let text = "日本語 abc\r\n\u{203A} 1. 日\r\n  2. 本\x1b[2;1Hあい\x1b[3;9r\x1b[?1049h漢\x1b[L\x1b[P";
    for rows in 1..=4u16 {
        for cols in 1..=4u16 {
            let mut m = CodexMouseUi::new(rows, cols);
            m.on_output(text.as_bytes());
            for (rows, cols) in [(4, 1), (1, 4), (2, 3), (3, 2), (1, 1), (24, 80), (rows, cols)] {
                m.resize(rows, cols);
                m.on_output(text.as_bytes());
                m.on_input(&sgr(35, 0, 0, false));
            }
        }
    }
}

#[test]
fn scan_finds_each_mode_change_once() {
    let output = b"\x1b[?10\x1b[?1\x1b[?1049h\x1b[?10";
    let ends: Vec<usize> = (5..=output.len())
        .filter(|&end| output[..end].ends_with(b"\x1b[?10"))
        .collect();
    assert_eq!(ends.len(), 3);
    for size in 1..=output.len() {
        let mut steering = Steering::new();
        let mut seen = 0;
        for chunk in output.chunks(size) {
            let found = steering.scan_mode_prefix(chunk);
            let end = seen + chunk.len();
            assert_eq!(found, ends.iter().any(|&e| seen < e && e <= end), "{size}");
            assert!(!steering.scan_mode_prefix(b""));
            seen = end;
        }
    }
}
