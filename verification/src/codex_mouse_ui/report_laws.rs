//! Mouse reports are read as they are written.
use vstd::prelude::*;

use crate::bytes::{self, SEMICOLON};
use crate::codex_mouse_ui::laws;
use crate::codex_mouse_ui::report::{self, MouseEvent};
use crate::codex_mouse_ui::screen::{MouseEncoding, MouseMode, ScreenModel};
use crate::codex_mouse_ui::steering::{self, Outcome, UiModel};

verus! {

/// The parameters of a report: three numbers, with a `;` between them.
pub open spec fn three_fields(a: Seq<u8>, b: Seq<u8>, c: Seq<u8>) -> Seq<u8> {
    a + seq![SEMICOLON] + b + seq![SEMICOLON] + c
}

/// The report of an event at a column and a row, both counted from 1:
/// `ESC [ <`, the three numbers, and `M`, or `m` for a release.
pub open spec fn written_report(code: nat, col: nat, row: nat, release: bool) -> Seq<u8> {
    seq![0x1bu8, 0x5bu8, 0x3cu8] + three_fields(
        bytes::decimal_bytes(code),
        bytes::decimal_bytes(col),
        bytes::decimal_bytes(row),
    ) + seq![
        if release {
            'm' as u8
        } else {
            'M' as u8
        },
    ]
}

/// What such a report says, where it is one: all numbers fit, and there is such
/// a column and a row.
pub open spec fn reported(code: nat, col: nat, row: nat, release: bool) -> Option<MouseEvent> {
    if code <= 65535 && 1 <= col <= 65535 && 1 <= row <= 65535 {
        Some(
            MouseEvent {
                code: code as u16,
                col: (col - 1) as u16,
                row: (row - 1) as u16,
                release,
            },
        )
    } else {
        None
    }
}

proof fn lemma_number(number: nat)
    ensures
        ({
            let digits = bytes::decimal_bytes(number);
            &&& digits.len() > 0
            &&& bytes::all_digits(digits)
            &&& forall|i: int| 0 <= i < digits.len() ==> #[trigger] digits[i] != SEMICOLON
            &&& digits[0] != bytes::PLUS
            &&& report::field_number(digits) == if number <= u16::MAX {
                Some(number as u16)
            } else {
                None
            }
        }),
{
    let digits = bytes::decimal_bytes(number);
    bytes::written_numbers_read_back(number, seq![]);
    assert(Seq::<u8>::empty() + digits =~= digits);
    assert forall|i: int| 0 <= i < digits.len() implies #[trigger] digits[i] != SEMICOLON by {
        assert(bytes::is_digit(digits[i]));
    }
    assert(bytes::is_digit(digits[0]));
}

proof fn lemma_three_fields(a: Seq<u8>, b: Seq<u8>, c: Seq<u8>)
    requires
        forall|i: int| 0 <= i < a.len() ==> #[trigger] a[i] != SEMICOLON,
        forall|i: int| 0 <= i < b.len() ==> #[trigger] b[i] != SEMICOLON,
        forall|i: int| 0 <= i < c.len() ==> #[trigger] c[i] != SEMICOLON,
    ensures
        ({
            let params = three_fields(a, b, c);
            let second = (a.len() + 1) as int;
            let third = (a.len() + b.len() + 2) as int;
            &&& bytes::field_end(params, 0) == a.len()
            &&& bytes::field_end(params, second) == third - 1
            &&& bytes::field_end(params, third) == params.len()
            &&& bytes::field_at(params, 0) == a
            &&& bytes::field_at(params, second) == b
            &&& bytes::field_at(params, third) == c
        }),
{
    let params = three_fields(a, b, c);
    let second = (a.len() + 1) as int;
    let third = (a.len() + b.len() + 2) as int;
    assert forall|i: int| 0 <= i < a.len() implies params[i] != SEMICOLON by {
        assert(params[i] == a[i]);
    }
    assert forall|i: int| second <= i < third - 1 implies params[i] != SEMICOLON by {
        assert(params[i] == b[i - second]);
    }
    assert forall|i: int| third <= i < params.len() implies params[i] != SEMICOLON by {
        assert(params[i] == c[i - third]);
    }
    bytes::lemma_field_end_unique(params, 0, a.len() as int);
    bytes::lemma_field_end_unique(params, second, third - 1);
    bytes::lemma_field_end_unique(params, third, params.len() as int);
    assert(bytes::field_at(params, 0) =~= a);
    assert(bytes::field_at(params, second) =~= b);
    assert(bytes::field_at(params, third) =~= c);
}

proof fn lemma_three_numbers(code: nat, col: nat, row: nat)
    ensures
        report::three_numbers(
            three_fields(
                bytes::decimal_bytes(code),
                bytes::decimal_bytes(col),
                bytes::decimal_bytes(row),
            ),
        ) == if code <= u16::MAX && col <= u16::MAX && row <= u16::MAX {
            Some((code as u16, col as u16, row as u16))
        } else {
            None
        },
{
    let a = bytes::decimal_bytes(code);
    let b = bytes::decimal_bytes(col);
    let c = bytes::decimal_bytes(row);
    lemma_number(code);
    lemma_number(col);
    lemma_number(row);
    lemma_three_fields(a, b, c);
}

/// Every event is read back from its report, whatever its numbers; a report
/// with a number that does not fit, or without a column or a row, is none.
pub proof fn reports_are_read_back(code: nat, col: nat, row: nat, release: bool)
    ensures
        report::mouse_report(written_report(code, col, row, release)) == reported(
            code,
            col,
            row,
            release,
        ),
{
    let seq = written_report(code, col, row, release);
    let a = bytes::decimal_bytes(code);
    let b = bytes::decimal_bytes(col);
    let c = bytes::decimal_bytes(row);
    lemma_three_numbers(code, col, row);
    assert(seq.subrange(3, seq.len() - 1) =~= three_fields(a, b, c));
    assert(report::REPORT_START@ =~= seq.subrange(0, 3));
}

/// Until its last byte, a report is held back.
proof fn lemma_report_is_held(
    ui: UiModel,
    screen: ScreenModel,
    seq: Seq<u8>,
    len: int,
)
    requires
        ui.pending == Seq::<u8>::empty(),
        0 <= len <= seq.len(),
        len <= 40,
        steering::is_report_start(seq.take(len)),
    ensures
        steering::input_run(ui, screen, seq.take(len)) == (Outcome {
            ui: UiModel { pending: seq.take(len), ..ui },
            to_child: seq![],
            to_term: seq![],
        }),
    decreases len,
{
    let taken = seq.take(len);
    let none = Seq::<u8>::empty();
    if len == 0 {
        assert(taken =~= none);
    } else {
        let before = seq.take(len - 1);
        reveal(steering::input_step);
        assert(taken.drop_last() =~= before);
        assert(steering::is_report_start(before)) by {
            assert forall|i: int| 3 <= i < before.len() implies bytes::is_digit(
                #[trigger] before[i],
            ) || before[i] == SEMICOLON by {
                assert(before[i] == taken[i]);
            }
        }
        lemma_report_is_held(ui, screen, seq, len - 1);
        assert(before.push(taken.last()) =~= taken);
        assert(none + none =~= none);
    }
}

/// A report that arrives in the input is handled as the event that it says, and
/// nothing of it is lost or left; one that says nothing goes to the child.
pub proof fn reports_are_handled(
    ui: UiModel,
    screen: ScreenModel,
    code: nat,
    col: nat,
    row: nat,
    release: bool,
)
    requires
        ui.pending == Seq::<u8>::empty(),
        code <= 99999,
        col <= 99999,
        row <= 99999,
    ensures
        ({
            let seq = written_report(code, col, row, release);
            steering::input_run(ui, screen, seq) == match reported(code, col, row, release) {
                Some(event) => steering::event_step(ui, screen, event, seq),
                None => Outcome { ui, to_child: seq, to_term: seq![] },
            }
        }),
{
    let seq = written_report(code, col, row, release);
    let len = seq.len() - 1;
    let held = seq.take(len);
    let a = bytes::decimal_bytes(code);
    let b = bytes::decimal_bytes(col);
    let c = bytes::decimal_bytes(row);
    let none = Seq::<u8>::empty();
    lemma_number(code);
    lemma_number(col);
    lemma_number(row);
    bytes::short_numbers(code, 5);
    bytes::short_numbers(col, 5);
    bytes::short_numbers(row, 5);
    reports_are_read_back(code, col, row, release);
    let params = three_fields(a, b, c);
    assert(held =~= seq![0x1bu8, 0x5bu8, 0x3cu8] + params);
    assert forall|i: int| 3 <= i < held.len() implies bytes::is_digit(#[trigger] held[i])
        || held[i] == SEMICOLON by {
        assert(held[i] == params[i - 3]);
        if i - 3 < a.len() {
            assert(bytes::is_digit(a[i - 3]));
        } else if a.len() < i - 3 < a.len() + 1 + b.len() {
            assert(bytes::is_digit(b[i - 4 - a.len()]));
        } else if i - 3 > a.len() + 1 + b.len() {
            assert(bytes::is_digit(c[i - 5 - a.len() - b.len()]));
        }
    }
    lemma_report_is_held(ui, screen, seq, len);
    assert(seq.drop_last() =~= held);
    assert(held.push(seq.last()) =~= seq);
    assert(!steering::is_report_start(seq)) by {
        assert(!bytes::is_digit(seq[len]) && seq[len] != SEMICOLON);
    }
    let idle = UiModel { pending: none, ..ui };
    reveal(steering::input_step);
    assert(idle =~= ui);
    let after = steering::input_step(UiModel { pending: held, ..ui }, screen, seq.last());
    assert(none + after.to_child =~= after.to_child);
    assert(none + after.to_term =~= after.to_term);
}

/// An event in the X10 encoding says where it happened and, but for a release,
/// which buttons and modifiers it had; a release keeps its modifiers. An event
/// has no such encoding exactly where a number does not fit in its byte.
pub proof fn x10_reports_say_the_event(event: MouseEvent)
    ensures
        match report::x10_report(event) {
            Some(seq) => {
                &&& seq.len() == 6
                &&& seq.take(3) == seq![0x1bu8, '[' as u8, 'M' as u8]
                &&& seq[4] - 33 == event.col
                &&& seq[5] - 33 == event.row
                &&& !event.release ==> seq[3] - 32 == event.code
                &&& event.release ==> ((seq[3] - 32) as u16) & 3 == 3 && ((seq[3] - 32) as u16) | 3
                    == event.code | 3
            },
            None => true,
        },
        report::x10_report(event) is None <==> event.col > 222 || event.row > 222 || event.code > 223,
{
    let code = event.code;
    assert(((code & !3u16) | 3u16) & 3 == 3 && ((code & !3u16) | 3u16) | 3 == code | 3
        && (((code & !3u16) | 3u16) > 223 <==> code > 223)) by (bit_vector);
    if report::x10_report(event) is Some {
        assert(report::x10_report(event)->0.take(3) =~= seq![0x1bu8, '[' as u8, 'M' as u8]);
    }
}

/// A number may be written with a `+` and with zeros in front of it.
pub proof fn numbers_may_be_padded(number: nat, zeros: Seq<u8>, signed: bool)
    requires
        forall|i: int| 0 <= i < zeros.len() ==> zeros[i] == 0x30,
    ensures
        report::field_number(
            if signed {
                seq!['+' as u8]
            } else {
                seq![]
            } + (zeros + bytes::decimal_bytes(number)),
        ) == if number <= 65535 {
            Some(number as u16)
        } else {
            None
        },
{
    let digits = zeros + bytes::decimal_bytes(number);
    let sign = if signed {
        seq!['+' as u8]
    } else {
        Seq::<u8>::empty()
    };
    let field = sign + digits;
    bytes::written_numbers_read_back(number, zeros);
    assert(bytes::is_digit(digits[0]));
    if signed {
        assert(field.skip(1) =~= digits);
    } else {
        assert(field =~= digits);
    }
}

/// Whether a field writes a number: digits, with or without a `+` in front.
pub open spec fn writes(field: Seq<u8>, number: nat) -> bool {
    let digits = if field.len() > 0 && field[0] == '+' as u8 {
        field.skip(1)
    } else {
        field
    };
    &&& digits.len() > 0
    &&& bytes::all_digits(digits)
    &&& bytes::decimal(digits) == number
}

/// The fields of a report, and what they say.
pub open spec fn is_report_of(
    seq: Seq<u8>,
    a: Seq<u8>,
    b: Seq<u8>,
    c: Seq<u8>,
    event: MouseEvent,
) -> bool {
    &&& seq == seq![0x1bu8, '[' as u8, '<' as u8] + three_fields(a, b, c) + seq![
        if event.release {
            'm' as u8
        } else {
            'M' as u8
        },
    ]
    &&& writes(a, event.code as nat)
    &&& writes(b, (event.col + 1) as nat)
    &&& writes(c, (event.row + 1) as nat)
}

/// Nothing else is taken for a report.
pub proof fn only_reports_are_events(seq: Seq<u8>)
    ensures
        report::mouse_report(seq) is Some ==> exists|a: Seq<u8>, b: Seq<u8>, c: Seq<u8>|
            is_report_of(seq, a, b, c, report::mouse_report(seq)->0),
{
    if report::mouse_report(seq) is Some {
        let event = report::mouse_report(seq)->0;
        let params = seq.subrange(3, seq.len() - 1);
        let first = bytes::field_end(params, 0);
        bytes::lemma_field_end(params, 0);
        let second = bytes::field_end(params, first + 1);
        bytes::lemma_field_end(params, first + 1);
        let third = bytes::field_end(params, second + 1);
        bytes::lemma_field_end(params, second + 1);
        let a = bytes::field_at(params, 0);
        let b = bytes::field_at(params, first + 1);
        let c = bytes::field_at(params, second + 1);
        assert(params =~= three_fields(a, b, c));
        assert forall|i: int| 0 <= i < 3 implies seq[i] == report::REPORT_START@[i] by {
            assert(seq.subrange(0, 3)[i] == seq[i]);
        }
        assert(seq =~= seq![0x1bu8, '[' as u8, '<' as u8] + params + seq![seq.last()]);
        assert(is_report_of(seq, a, b, c, event));
    }
}

/// What may become a report is held back up to forty bytes; beyond that all of
/// it goes to the child.
pub proof fn starts_of_reports_are_held(ui: UiModel, screen: ScreenModel, byte: u8)
    requires
        steering::is_report_start(ui.pending.push(byte)),
    ensures
        steering::input_step(ui, screen, byte) == if ui.pending.len() < 40 {
            Outcome {
                ui: UiModel { pending: ui.pending.push(byte), ..ui },
                to_child: seq![],
                to_term: seq![],
            }
        } else {
            Outcome {
                ui: UiModel { pending: seq![], ..ui },
                to_child: ui.pending.push(byte),
                to_term: seq![],
            }
        },
{
    reveal(steering::input_step);
}

/// Before anything has been seen nothing is held back, steered or swallowed,
/// and mouse reporting is off: input passes, and output that sets no mode sends
/// the terminal nothing.
pub proof fn nothing_has_been_seen_at_first(screen: ScreenModel, chunk: Seq<u8>)
    requires
        !bytes::occurs(chunk, seq![0x1bu8, '[' as u8, '?' as u8, '1' as u8, '0' as u8]),
        screen.mouse_mode == MouseMode::Off,
        screen.mouse_encoding == MouseEncoding::Default,
        !screen.alternate_screen,
    ensures
        ({
            let ui = steering::initial_ui();
            let after = steering::output_step(ui, screen, chunk);
            &&& ui.pending == Seq::<u8>::empty()
            &&& ui.steered_row is None
            &&& ui.last_pos is None
            &&& !ui.swallow_release
            &&& !ui.active
            &&& !ui.pointer
            &&& after.to_term == Seq::<u8>::empty()
            &&& after.ui.active == screen.bracketed_paste
        }),
{
    let ui = steering::initial_ui();
    assert(ui.scan_carry + chunk =~= chunk);
    assert(steering::MODE_PREFIX@ =~= seq![0x1bu8, '[' as u8, '?' as u8, '1' as u8, '0' as u8]);
    assert(steering::output_step(ui, screen, chunk).to_term =~= seq![]);
}

/// An ESC always starts anew: what was held back goes to the child, and the ESC
/// alone is held back.
pub proof fn escapes_start_anew(ui: UiModel, screen: ScreenModel)
    ensures
        steering::input_step(ui, screen, 0x1b) == (Outcome {
            ui: UiModel { pending: seq![0x1bu8], ..ui },
            to_child: ui.pending,
            to_term: seq![],
        }),
{
    reveal(steering::input_step);
    let seen = ui.pending.push(0x1b);
    if ui.pending.len() == 0 {
        assert(ui.pending =~= seq![]);
        assert(seen =~= seq![0x1bu8]);
    } else {
        assert(!steering::is_report_start(seen)) by {
            let at = ui.pending.len() as int;
            assert(seen[at] == 0x1b);
            if at >= 3 {
                assert(!bytes::is_digit(seen[at]));
            }
        }
    }
}

/// A report is handled wherever it arrives: what was held back in front of it
/// goes to the child first, and then it is handled as by itself.
pub proof fn reports_are_handled_behind_other_input(
    ui: UiModel,
    screen: ScreenModel,
    code: nat,
    col: nat,
    row: nat,
    release: bool,
)
    ensures
        ({
            let seq = written_report(code, col, row, release);
            let idle = UiModel { pending: seq![], ..ui };
            let alone = steering::input_run(idle, screen, seq);
            let after = steering::input_run(ui, screen, seq);
            &&& after.ui == alone.ui
            &&& after.to_child == ui.pending + alone.to_child
            &&& after.to_term == alone.to_term
        }),
{
    let seq = written_report(code, col, row, release);
    let first = seq.take(1);
    let rest = seq.skip(1);
    let none = Seq::<u8>::empty();
    let idle = UiModel { pending: none, ..ui };
    let begun = UiModel { pending: seq![0x1bu8], ..ui };
    assert(seq =~= first + rest);
    assert(first.drop_last() =~= none);
    assert(first.last() == 0x1b);
    escapes_start_anew(ui, screen);
    escapes_start_anew(idle, screen);
    assert(steering::input_run(ui, screen, none).ui == ui);
    assert(steering::input_run(idle, screen, none).ui == idle);
    assert(none + ui.pending =~= ui.pending);
    assert(none + none =~= none);
    assert(steering::input_run(ui, screen, first).to_child =~= ui.pending);
    assert(steering::input_run(idle, screen, first).to_child =~= none);
    assert(steering::input_run(ui, screen, first).ui == begun);
    assert(steering::input_run(idle, screen, first).ui == begun);
    laws::input_may_be_cut_anywhere(ui, screen, first, rest);
    laws::input_may_be_cut_anywhere(idle, screen, first, rest);
    let later = steering::input_run(begun, screen, rest);
    assert(none + later.to_child =~= later.to_child);
}

/// Nothing but the start of a report is ever held back: `ESC`, then `[`, then
/// `<`, then digits and `;`, and at most forty bytes in all.
pub proof fn only_starts_of_reports_are_held(ui: UiModel, screen: ScreenModel, data: Seq<u8>)
    requires
        ui.pending == Seq::<u8>::empty(),
    ensures
        ({
            let held = steering::input_run(ui, screen, data).ui.pending;
            &&& held.len() <= 40
            &&& held.len() > 0 ==> held[0] == 0x1b
            &&& held.len() > 1 ==> held[1] == '[' as u8
            &&& held.len() > 2 ==> held[2] == '<' as u8
            &&& forall|i: int|
                3 <= i < held.len() ==> 0x30 <= #[trigger] held[i] && held[i] <= 0x39 || held[i]
                    == ';' as u8
        }),
{
    laws::input_buffering_is_bounded(ui, screen, data);
    let held = steering::input_run(ui, screen, data).ui.pending;
    assert forall|i: int| 3 <= i < held.len() implies 0x30 <= #[trigger] held[i] && held[i] <= 0x39
        || held[i] == ';' as u8 by {
        assert(bytes::is_digit(held[i]) || held[i] == SEMICOLON);
    }
}

} // verus!
