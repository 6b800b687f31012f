//! What OSCs do, by the number that they write.
use vstd::prelude::*;

use crate::bytes::{self, BACKSLASH, BEL, ESC, SEMICOLON};
use crate::filters::model;
use crate::filters::osc::{self, OscRule};
use crate::filters::osc_title::DropTitles;
use crate::filters::tmux_osc_passthrough::{self, WrapListed};

verus! {

/// Whether no terminator of an OSC stands in `text`.
pub open spec fn is_unterminated(text: Seq<u8>) -> bool {
    &&& forall|i: int| 0 <= i < text.len() ==> text[i] != BEL
    &&& forall|i: int|
        0 <= i && i + 1 < text.len() && #[trigger] text[i] == ESC ==> text[i + 1] != BACKSLASH
}

/// Whether `bytes` ends an OSC: a BEL, or `ESC \`.
pub open spec fn is_terminator(bytes: Seq<u8>) -> bool {
    bytes == seq![BEL] || bytes == seq![ESC, BACKSLASH]
}

/// The OSC that writes `field`, then `payload`, then `terminator`. The payload
/// is nothing, or a `;` and what follows it.
pub open spec fn written_osc(field: Seq<u8>, payload: Seq<u8>, terminator: Seq<u8>) -> Seq<u8> {
    seq![0x1bu8, 0x5du8] + field + payload + terminator
}

/// Whether such an OSC can be written: the terminator is the only one, and the
/// field ends where it seems to.
pub open spec fn can_be_written(field: Seq<u8>, payload: Seq<u8>, terminator: Seq<u8>) -> bool {
    &&& is_unterminated(field + payload)
    &&& is_terminator(terminator)
    &&& forall|i: int| 0 <= i < field.len() ==> field[i] != SEMICOLON
    &&& payload.len() > 0 ==> payload[0] == SEMICOLON
}

proof fn lemma_unterminated(text: Seq<u8>)
    requires
        is_unterminated(text),
    ensures
        osc::osc_phase(text) == if text.len() > 0 && text.last() == ESC {
            osc::OscPhase::Escape
        } else {
            osc::OscPhase::Open
        },
    decreases text.len(),
{
    if text.len() > 0 {
        let before = text.drop_last();
        assert(is_unterminated(before)) by {
            assert forall|i: int| 0 <= i < before.len() implies before[i] != BEL by {
                assert(text[i] == before[i]);
            }
            assert forall|i: int|
                0 <= i && i + 1 < before.len() && #[trigger] before[i]
                    == ESC implies before[i + 1] != BACKSLASH by {
                assert(text[i] == before[i] && text[i + 1] == before[i + 1]);
            }
        }
        lemma_unterminated(before);
        if before.len() > 0 && before.last() == ESC {
            assert(text[before.len() - 1] == ESC);
        }
    }
}

/// What is written as an OSC is one, and its field is read back.
proof fn lemma_written(field: Seq<u8>, payload: Seq<u8>, terminator: Seq<u8>)
    requires
        can_be_written(field, payload, terminator),
    ensures
        osc::is_osc(written_osc(field, payload, terminator)),
        bytes::field_at(osc::osc_body(written_osc(field, payload, terminator)), 0) == field,
{
    let text = field + payload;
    let sequence = written_osc(field, payload, terminator);
    let body = sequence.skip(2);
    lemma_unterminated(text);
    if terminator == seq![BEL] {
        assert(body.drop_last() =~= text);
    } else {
        assert(body.drop_last() =~= text.push(ESC));
        assert(text.push(ESC).drop_last() =~= text);
    }
    assert(osc::osc_body(sequence) =~= text);
    bytes::lemma_field_end(text, 0);
    let end = bytes::field_end(text, 0);
    if end < field.len() {
        assert(text[end] == field[end]);
    }
    if end > field.len() {
        assert(text[field.len() as int] == payload[0]);
    }
    assert(bytes::field_at(text, 0) =~= field);
}

/// The code of an OSC is the number that it writes, whatever its payload and
/// with either terminator; a number too large for a code gives none.
pub proof fn codes_are_the_numbers_written(
    code: nat,
    zeros: Seq<u8>,
    payload: Seq<u8>,
    terminator: Seq<u8>,
)
    requires
        forall|i: int| 0 <= i < zeros.len() ==> zeros[i] == 0x30,
        can_be_written(zeros + bytes::decimal_bytes(code), payload, terminator),
    ensures
        ({
            let sequence = written_osc(zeros + bytes::decimal_bytes(code), payload, terminator);
            &&& osc::is_osc(sequence)
            &&& code <= u16::MAX ==> osc::osc_code(sequence) == Some(code as u16)
            &&& code > u16::MAX ==> osc::osc_code(sequence) is None
        }),
{
    bytes::written_numbers_read_back(code, zeros);
    lemma_written(zeros + bytes::decimal_bytes(code), payload, terminator);
}

/// Numbers can be written in front of every payload without a terminator.
pub proof fn numbers_can_be_written(
    code: nat,
    zeros: Seq<u8>,
    payload: Seq<u8>,
    terminator: Seq<u8>,
)
    requires
        forall|i: int| 0 <= i < zeros.len() ==> zeros[i] == 0x30,
        is_unterminated(payload),
        is_terminator(terminator),
        payload.len() > 0 ==> payload[0] == SEMICOLON,
    ensures
        can_be_written(zeros + bytes::decimal_bytes(code), payload, terminator),
{
    bytes::written_numbers_read_back(code, zeros);
    let field = zeros + bytes::decimal_bytes(code);
    let text = field + payload;
    assert forall|i: int| 0 <= i < field.len() implies bytes::is_digit(#[trigger] text[i]) by {
        assert(text[i] == field[i]);
    }
    assert forall|i: int| 0 <= i < text.len() implies text[i] != BEL by {
        if i >= field.len() {
            assert(text[i] == payload[i - field.len()]);
        }
    }
    assert forall|i: int|
        0 <= i && i + 1 < text.len() && #[trigger] text[i] == ESC implies text[i + 1]
        != BACKSLASH by {
        if i >= field.len() {
            assert(text[i] == payload[i - field.len()]);
            assert(text[i + 1] == payload[i + 1 - field.len()]);
        }
    }
}

/// An OSC that writes anything but a number in front of its payload has no code.
pub proof fn other_fields_are_no_codes(field: Seq<u8>, payload: Seq<u8>, terminator: Seq<u8>)
    requires
        can_be_written(field, payload, terminator),
        field.len() == 0 || exists|i: int| 0 <= i < field.len() && !bytes::is_digit(#[trigger] field[i]),
    ensures
        osc::is_osc(written_osc(field, payload, terminator)),
        osc::osc_code(written_osc(field, payload, terminator)) is None,
{
    lemma_written(field, payload, terminator);
    if field.len() > 0 {
        let i = choose|i: int| 0 <= i < field.len() && !bytes::is_digit(#[trigger] field[i]);
        assert(!bytes::is_digit(field[i]));
    }
}

/// What is let out of one whole OSC.
proof fn lemma_one_osc<R: OscRule>(rule: R, sequence: Seq<u8>)
    requires
        osc::is_osc(sequence),
    ensures
        model::feed(osc::osc_step(rule), seq![], sequence) == (
            Seq::<u8>::empty(),
            rule.rendering(osc::osc_code(sequence), sequence),
        ),
{
    assert(osc::leading_escapes(sequence) == 1) by {
        assert(sequence.skip(1)[0] == sequence[1]);
        reveal_with_fuel(osc::leading_escapes, 3);
    }
    assert(osc::lone_escapes(sequence) =~= seq![]);
    assert(osc::sequence_of(sequence) =~= sequence);
    osc::units_are_rendered(rule, sequence);
    assert(osc::unit_output(rule, sequence) =~= rule.rendering(osc::osc_code(sequence), sequence));
}

/// Exactly the OSCs that write 0, 1 or 2 are dropped as titles; one with any
/// other number passes unchanged, and so does one without a number.
pub proof fn titles_are_known_by_their_number(
    code: nat,
    zeros: Seq<u8>,
    payload: Seq<u8>,
    terminator: Seq<u8>,
)
    requires
        forall|i: int| 0 <= i < zeros.len() ==> zeros[i] == 0x30,
        can_be_written(zeros + bytes::decimal_bytes(code), payload, terminator),
    ensures
        ({
            let sequence = written_osc(zeros + bytes::decimal_bytes(code), payload, terminator);
            model::feed(osc::osc_step(DropTitles), seq![], sequence) == (
                Seq::<u8>::empty(),
                if code == 0 || code == 1 || code == 2 {
                    seq![]
                } else {
                    sequence
                },
            )
        }),
{
    codes_are_the_numbers_written(code, zeros, payload, terminator);
    lemma_one_osc(
        DropTitles,
        written_osc(zeros + bytes::decimal_bytes(code), payload, terminator),
    );
}

/// Exactly the OSCs that write a listed number come out in a passthrough, from
/// which tmux takes the OSC as it was; the others pass unchanged.
pub proof fn listed_numbers_are_relayed(
    rule: WrapListed,
    code: nat,
    zeros: Seq<u8>,
    payload: Seq<u8>,
    terminator: Seq<u8>,
)
    requires
        forall|i: int| 0 <= i < zeros.len() ==> zeros[i] == 0x30,
        can_be_written(zeros + bytes::decimal_bytes(code), payload, terminator),
    ensures
        ({
            let sequence = written_osc(zeros + bytes::decimal_bytes(code), payload, terminator);
            let (held, out) = model::feed(osc::osc_step(rule), seq![], sequence);
            let listed = exists|i: int| 0 <= i < rule.codes@.len() && rule.codes@[i] == code;
            &&& held == Seq::<u8>::empty()
            &&& listed ==> out == tmux_osc_passthrough::tmux_wrapped(sequence)
            &&& listed ==> out.take(7) == seq![
                0x1bu8,
                'P' as u8,
                't' as u8,
                'm' as u8,
                'u' as u8,
                'x' as u8,
                ';' as u8,
            ]
            &&& listed ==> tmux_osc_passthrough::tmux_payload(out.skip(7)) == Some(sequence)
            &&& !listed ==> out == sequence
        }),
{
    let sequence = written_osc(zeros + bytes::decimal_bytes(code), payload, terminator);
    codes_are_the_numbers_written(code, zeros, payload, terminator);
    lemma_one_osc(rule, sequence);
    tmux_osc_passthrough::tmux_hands_on_the_wrapped_sequence(sequence);
    let wrapped = tmux_osc_passthrough::tmux_wrapped(sequence);
    assert(wrapped.take(7) =~= tmux_osc_passthrough::TMUX_START@);
    assert(tmux_osc_passthrough::TMUX_START@ =~= seq![
        0x1bu8,
        'P' as u8,
        't' as u8,
        'm' as u8,
        'u' as u8,
        'x' as u8,
        ';' as u8,
    ]);
    if code <= u16::MAX {
        if rule.codes@.contains(code as u16) {
            let i = choose|i: int| 0 <= i < rule.codes@.len() && rule.codes@[i] == code as u16;
            assert(rule.codes@[i] == code);
        } else {
            assert forall|i: int| 0 <= i < rule.codes@.len() implies rule.codes@[i] != code by {
                if rule.codes@[i] == code {
                    assert(rule.codes@.contains(rule.codes@[i]));
                }
            }
        }
    }
}

/// An OSC without a number is not dropped as a title.
pub proof fn oscs_without_a_number_pass_as_titles(
    field: Seq<u8>,
    payload: Seq<u8>,
    terminator: Seq<u8>,
)
    requires
        can_be_written(field, payload, terminator),
        field.len() == 0 || exists|i: int|
            0 <= i < field.len() && !bytes::is_digit(#[trigger] field[i]),
    ensures
        model::feed(
            osc::osc_step(DropTitles),
            seq![],
            written_osc(field, payload, terminator),
        ) == (Seq::<u8>::empty(), written_osc(field, payload, terminator)),
{
    other_fields_are_no_codes(field, payload, terminator);
    lemma_one_osc(DropTitles, written_osc(field, payload, terminator));
}

/// An OSC without a number is not relayed, whatever is listed.
pub proof fn oscs_without_a_number_pass(
    rule: WrapListed,
    field: Seq<u8>,
    payload: Seq<u8>,
    terminator: Seq<u8>,
)
    requires
        can_be_written(field, payload, terminator),
        field.len() == 0 || exists|i: int|
            0 <= i < field.len() && !bytes::is_digit(#[trigger] field[i]),
    ensures
        model::feed(osc::osc_step(rule), seq![], written_osc(field, payload, terminator)) == (
            Seq::<u8>::empty(),
            written_osc(field, payload, terminator),
        ),
{
    other_fields_are_no_codes(field, payload, terminator);
    lemma_one_osc(rule, written_osc(field, payload, terminator));
}

/// Whether `bytes` are ESCs and nothing else.
pub open spec fn are_escapes(bytes: Seq<u8>) -> bool {
    forall|i: int| 0 <= i < bytes.len() ==> bytes[i] == 0x1b
}

/// ESCs in front of an OSC stay in front of what it is relayed as, however many
/// there are.
pub proof fn escapes_stay_in_front(rule: WrapListed, escapes: Seq<u8>, sequence: Seq<u8>)
    requires
        are_escapes(escapes),
        osc::is_osc(sequence),
    ensures
        ({
            let (held, out) = model::feed(osc::osc_step(rule), seq![], sequence);
            &&& held == Seq::<u8>::empty()
            &&& model::feed(osc::osc_step(rule), seq![], escapes + sequence) == (
                held,
                escapes + out,
            )
        }),
{
    let unit = escapes + sequence;
    let count = escapes.len() as int;
    lemma_one_osc(rule, sequence);
    assert(osc::leading_escapes(unit) == count + 1) by {
        lemma_leading(unit, count + 1);
    }
    assert(osc::lone_escapes(unit) =~= escapes);
    assert(osc::sequence_of(unit) =~= sequence);
    let rendered = rule.rendering(osc::osc_code(sequence), sequence);
    assert(rendered.len() > 0);
    osc::units_are_rendered(rule, unit);
    assert(osc::unit_output(rule, unit) =~= escapes + rendered);
}

pub proof fn lemma_leading(bytes: Seq<u8>, count: int)
    requires
        0 <= count <= bytes.len(),
        forall|i: int| 0 <= i < count ==> bytes[i] == ESC,
        count < bytes.len() ==> bytes[count] != ESC,
    ensures
        osc::leading_escapes(bytes) == count,
    decreases bytes.len(),
{
    if count > 0 {
        lemma_leading(bytes.skip(1), count - 1);
    }
}

} // verus!
