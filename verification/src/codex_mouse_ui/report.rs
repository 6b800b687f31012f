//! Mouse reports.
use vstd::prelude::*;

use crate::bytes::{
    self, digits_only, find_field_end, parse_decimal, starts_with, BRACKET, ESC, LOWER_M, PLUS,
    UPPER_M,
};

verus! {

/// `ESC [ <`, which starts an SGR mouse report.
pub const REPORT_START: [u8; 3] = [0x1b, 0x5b, 0x3c];

/// What a mouse report says.
#[derive(Debug, Clone, Copy, PartialEq, Eq, Structural)]
pub struct MouseEvent {
    /// The buttons and modifiers, and whether it is a motion.
    pub code: u16,
    /// 0-based column.
    pub col: u16,
    /// 0-based row.
    pub row: u16,
    pub release: bool,
}

/// The number that a field writes: decimal digits, which a `+` may stand in
/// front of.
pub open spec fn field_number(field: Seq<u8>) -> Option<u16> {
    let digits = if field.len() > 0 && field[0] == PLUS {
        field.skip(1)
    } else {
        field
    };
    if digits.len() > 0 && bytes::all_digits(digits) {
        bytes::decimal_u16(digits)
    } else {
        None
    }
}

/// The three numbers of `params`, where there are exactly three fields and
/// each of them writes a number.
pub open spec fn three_numbers(params: Seq<u8>) -> Option<(u16, u16, u16)> {
    let first = bytes::field_end(params, 0);
    let second = bytes::field_end(params, first + 1);
    let third = bytes::field_end(params, second + 1);
    if first < params.len() && second < params.len() && third == params.len() {
        match (
            field_number(bytes::field_at(params, 0)),
            field_number(bytes::field_at(params, first + 1)),
            field_number(bytes::field_at(params, second + 1)),
        ) {
            (Some(a), Some(b), Some(c)) => Some((a, b, c)),
            _ => None,
        }
    } else {
        None
    }
}

/// What an SGR mouse report (`CSI < Pb ; Px ; Py M|m`) says; `None` for any
/// other bytes. Columns and rows are counted from 1 in a report.
pub open spec fn mouse_report(seq: Seq<u8>) -> Option<MouseEvent> {
    if seq.len() >= 4 && REPORT_START@.is_prefix_of(seq) && (seq.last() == UPPER_M || seq.last()
        == LOWER_M) {
        match three_numbers(seq.subrange(3, seq.len() - 1)) {
            Some((code, col, row)) => if col > 0 && row > 0 {
                Some(
                    MouseEvent {
                        code,
                        col: (col - 1) as u16,
                        row: (row - 1) as u16,
                        release: seq.last() == LOWER_M,
                    },
                )
            } else {
                None
            },
            None => None,
        }
    } else {
        None
    }
}

fn parse_number(field: &[u8]) -> (number: Option<u16>)
    ensures
        number == field_number(field@),
{
    let digits = if field.len() > 0 && field[0] == PLUS {
        &field[1..field.len()]
    } else {
        field
    };
    assert(field@.len() > 0 && field@[0] == PLUS ==> digits@ =~= field@.skip(1));
    if digits.len() > 0 && digits_only(digits) {
        parse_decimal(digits)
    } else {
        None
    }
}

fn parse_three_numbers(params: &[u8]) -> (numbers: Option<(u16, u16, u16)>)
    ensures
        numbers == three_numbers(params@),
{
    let first: usize = find_field_end(params, 0);
    if first >= params.len() {
        return None;
    }
    let second: usize = find_field_end(params, first + 1);
    if second >= params.len() {
        return None;
    }
    let third: usize = find_field_end(params, second + 1);
    if third != params.len() {
        return None;
    }
    let a = parse_number(&params[0..first]);
    let b = parse_number(&params[first + 1..second]);
    let c = parse_number(&params[second + 1..third]);
    match (a, b, c) {
        (Some(a), Some(b), Some(c)) => Some((a, b, c)),
        _ => None,
    }
}

/// Parses a complete SGR mouse report (`CSI < Pb ; Px ; Py M|m`).
pub fn parse_sgr_mouse(seq: &[u8]) -> (event: Option<MouseEvent>)
    ensures
        event == mouse_report(seq@),
{
    if seq.len() < 4 || !starts_with(seq, &REPORT_START) {
        return None;
    }
    let last: u8 = seq[seq.len() - 1];
    if last != UPPER_M && last != LOWER_M {
        return None;
    }
    let (code, col, row) = match parse_three_numbers(&seq[3..seq.len() - 1]) {
        Some(numbers) => numbers,
        None => return None,
    };
    if col == 0 || row == 0 {
        return None;
    }
    Some(MouseEvent { code, col: col - 1, row: row - 1, release: last == LOWER_M })
}

/// The button code of the X10 encoding: a release does not say which button
/// was released.
pub open spec fn x10_code(event: MouseEvent) -> u16 {
    if event.release {
        (event.code & !3u16) | 3u16
    } else {
        event.code
    }
}

/// An event in the legacy X10 encoding, in which each number is one byte;
/// `None` where one does not fit.
pub open spec fn x10_report(event: MouseEvent) -> Option<Seq<u8>> {
    if x10_code(event) + 32 <= u8::MAX && event.col + 33 <= u8::MAX && event.row + 33 <= u8::MAX {
        Some(
            seq![
                ESC,
                BRACKET,
                UPPER_M,
                (x10_code(event) + 32) as u8,
                (event.col + 33) as u8,
                (event.row + 33) as u8,
            ],
        )
    } else {
        None
    }
}

/// Re-encodes an event in the legacy X10 byte encoding for children
/// that enabled a mouse protocol without SGR encoding.  Returns `None`
/// when the coordinates do not fit.
pub fn encode_x10(ev: &MouseEvent) -> (seq: Option<Vec<u8>>)
    ensures
        match x10_report(*ev) {
            Some(expected) => seq is Some && seq->0@ == expected,
            None => seq is None,
        },
{
    let code: u16 = if ev.release {
        (ev.code & !3u16) | 3u16
    } else {
        ev.code
    };
    if code > 223 || ev.col > 222 || ev.row > 222 {
        return None;
    }
    let seq: Vec<u8> = vec![
        ESC,
        BRACKET,
        UPPER_M,
        (code + 32) as u8,
        (ev.col + 33) as u8,
        (ev.row + 33) as u8,
    ];
    assert(seq@ =~= x10_report(*ev)->0);
    Some(seq)
}

} // verus!
