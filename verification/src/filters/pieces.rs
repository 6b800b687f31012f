//! Whole characters and sequences of a stream, and what becomes of each.
use vstd::prelude::*;

use crate::bytes::{self, BRACKET, CLOSE_BRACKET, ESC};
use crate::filters::dropping::{self, Dropped};
use crate::filters::ink_fake_cursor::{self as ink};
use crate::filters::osc::{self, OscRule};
use crate::filters::osc_laws;
use crate::filters::sgr_laws::{self, Attribute};
use crate::filters::{csi, ink_laws, model, printable, DropTitles, WrapListed};

verus! {

/// A whole character or sequence of a stream.
pub enum Piece {
    /// One byte of text, or a control character.
    Byte(u8),
    /// An escape of two bytes.
    Escape(u8),
    /// A CSI with its parameters and intermediates, and its final byte.
    Control { params: Seq<u8>, last: u8 },
    /// An OSC by its number.
    Numbered { code: nat, payload: Seq<u8>, terminator: Seq<u8> },
    /// An OSC without a number.
    Unnumbered { field: Seq<u8>, payload: Seq<u8>, terminator: Seq<u8> },
    /// Text in inverse.
    Inverse { opening: Seq<Attribute>, inner: Seq<u8>, closing: Seq<Attribute> },
}

/// `ESC [`, parameters and intermediates, and a final byte.
pub open spec fn written_csi(params: Seq<u8>, last: u8) -> Seq<u8> {
    seq![0x1bu8, 0x5bu8] + params + seq![last]
}

/// The bytes of a piece.
pub open spec fn written(piece: Piece) -> Seq<u8> {
    match piece {
        Piece::Byte(byte) => seq![byte],
        Piece::Escape(byte) => seq![0x1bu8, byte],
        Piece::Control { params, last } => written_csi(params, last),
        Piece::Numbered { code, payload, terminator } => osc_laws::written_osc(
            bytes::decimal_bytes(code),
            payload,
            terminator,
        ),
        Piece::Unnumbered { field, payload, terminator } => osc_laws::written_osc(
            field,
            payload,
            terminator,
        ),
        Piece::Inverse { opening, inner, closing } => sgr_laws::written_sgr(opening) + inner
            + sgr_laws::written_sgr(closing),
    }
}

/// Whether no ESC stands in `bytes`.
pub open spec fn is_plain(bytes: Seq<u8>) -> bool {
    forall|i: int| 0 <= i < bytes.len() ==> bytes[i] != ESC
}

/// Whether a piece is what it seems to be, and nothing inside it starts another.
pub open spec fn is_piece(piece: Piece) -> bool {
    match piece {
        Piece::Byte(byte) => byte != ESC,
        Piece::Escape(byte) => byte != ESC && byte != BRACKET && byte != CLOSE_BRACKET,
        Piece::Control { params, last } => {
            &&& forall|i: int| 0 <= i < params.len() ==> 0x20 <= #[trigger] params[i] && params[i]
                <= 0x3f
            &&& 0x40 <= last <= 0x7e
            &&& !ink::is_opening(written_csi(params, last))
        },
        Piece::Numbered { code, payload, terminator } => {
            &&& osc_laws::can_be_written(bytes::decimal_bytes(code), payload, terminator)
            &&& is_plain(payload)
        },
        Piece::Unnumbered { field, payload, terminator } => {
            &&& osc_laws::can_be_written(field, payload, terminator)
            &&& is_plain(field + payload)
            &&& field.len() == 0 || exists|i: int|
                0 <= i < field.len() && !bytes::is_digit(#[trigger] field[i])
        },
        Piece::Inverse { opening, inner, closing } => {
            &&& ink_laws::turn_inverse_on_and_off(opening, closing)
            &&& inner.len() > 0
            &&& is_plain(inner)
            &&& (sgr_laws::written_sgr(opening) + inner + sgr_laws::written_sgr(closing)).len()
                <= 65
        },
    }
}

/// Whether a piece hides the cursor: `ESC [ ? 2 5 l`.
pub open spec fn hides_cursor(piece: Piece) -> bool {
    match piece {
        Piece::Control { params, last } => {
            &&& params == seq!['?' as u8, '2' as u8, '5' as u8]
            &&& last == 'l' as u8
        },
        _ => false,
    }
}

/// Whether a piece sets the cursor shape: digits, a space and `q`.
pub open spec fn sets_cursor_shape(piece: Piece) -> bool {
    match piece {
        Piece::Control { params, last } => {
            &&& params.len() > 0
            &&& params.last() == ' ' as u8
            &&& bytes::all_digits(params.drop_last())
            &&& last == 'q' as u8
        },
        _ => false,
    }
}

/// Whether a piece sets an icon name or a title.
pub open spec fn sets_title(piece: Piece) -> bool {
    match piece {
        Piece::Numbered { code, .. } => code == 0 || code == 1 || code == 2,
        _ => false,
    }
}

/// Whether a piece is an OSC whose number is listed.
pub open spec fn is_listed(codes: Seq<u16>, piece: Piece) -> bool {
    match piece {
        Piece::Numbered { code, .. } => exists|i: int| 0 <= i < codes.len() && codes[i] == code,
        _ => false,
    }
}

/// What is left of a piece without fake cursors.
pub open spec fn without_fake_cursor(piece: Piece) -> Seq<u8> {
    match piece {
        Piece::Inverse { opening, inner, closing } => {
            let printed = printable::printable_text(inner);
            if printed is Some && ink::grapheme_count(printed->0) == 1 {
                ink_laws::without_inverse(opening, inner, closing)
            } else {
                written(piece)
            }
        },
        _ => written(piece),
    }
}

/// Two parts, each of which leaves nothing held back.
proof fn lemma_two_parts(
    step: model::ByteStep,
    a: Seq<u8>,
    b: Seq<u8>,
    x: Seq<u8>,
    y: Seq<u8>,
)
    requires
        model::feed(step, seq![], a) == (Seq::<u8>::empty(), x),
        model::feed(step, seq![], b) == (Seq::<u8>::empty(), y),
    ensures
        model::feed(step, seq![], a + b) == (Seq::<u8>::empty(), x + y),
{
    model::lemma_feed_concat(step, seq![], a, b);
}

proof fn lemma_plain(data: Seq<u8>)
    requires
        is_plain(data),
    ensures
        !data.contains(ESC),
{
}

/// OSC rules pass an escape other than an OSC, and text behind it.
proof fn lemma_osc_step_passes<R: OscRule>(rule: R, data: Seq<u8>)
    requires
        data.len() >= 2,
        data[0] == ESC,
        data[1] != ESC && data[1] != CLOSE_BRACKET,
        is_plain(data.skip(1)),
    ensures
        model::feed(osc::osc_step(rule), seq![], data) == (Seq::<u8>::empty(), data),
{
    let unit = data.take(2);
    let rest = data.skip(2);
    assert(is_plain(rest)) by {
        assert forall|i: int| 0 <= i < rest.len() implies rest[i] != ESC by {
            assert(rest[i] == data.skip(1)[i + 1]);
        }
    }
    lemma_plain(rest);
    reveal_with_fuel(osc::leading_escapes, 3);
    assert(unit.skip(1)[0] == data[1]);
    assert(osc::leading_escapes(unit) == 1);
    assert(osc::is_unit(rule, unit));
    osc::units_are_rendered(rule, unit);
    assert(osc::sequence_of(unit) =~= unit);
    osc::plain_text_passes(rule, rest);
    lemma_two_parts(osc::osc_step(rule), unit, rest, unit, rest);
    assert(unit + rest =~= data);
}

/// Droppers pass an escape other than a CSI, and text behind it.
proof fn lemma_drop_step_passes(kind: Dropped, data: Seq<u8>)
    requires
        data.len() >= 2,
        data[0] == ESC,
        data[1] != ESC && data[1] != BRACKET,
        is_plain(data.skip(1)),
    ensures
        model::feed(dropping::drop_step(kind), seq![], data) == (Seq::<u8>::empty(), data),
{
    let unit = data.take(2);
    let rest = data.skip(2);
    assert(is_plain(rest)) by {
        assert forall|i: int| 0 <= i < rest.len() implies rest[i] != ESC by {
            assert(rest[i] == data.skip(1)[i + 1]);
        }
    }
    lemma_plain(rest);
    dropping::complete_sequence_is_dropped_or_kept(kind, unit);
    assert(!dropping::is_dropped(kind, unit));
    dropping::plain_text_passes(kind, rest);
    lemma_two_parts(dropping::drop_step(kind), unit, rest, unit, rest);
    assert(unit + rest =~= data);
}

/// The fake cursor filter passes an escape other than a CSI, and text behind it.
proof fn lemma_ink_step_passes(data: Seq<u8>)
    requires
        data.len() >= 2,
        data[0] == ESC,
        data[1] != ESC && data[1] != BRACKET,
        is_plain(data.skip(1)),
    ensures
        model::feed(ink::fake_cursor_step(), seq![], data) == (Seq::<u8>::empty(), data),
{
    let unit = data.take(2);
    let rest = data.skip(2);
    assert(is_plain(rest)) by {
        assert forall|i: int| 0 <= i < rest.len() implies rest[i] != ESC by {
            assert(rest[i] == data.skip(1)[i + 1]);
        }
    }
    lemma_plain(rest);
    ink_laws::lemma_unit_passes(unit);
    ink_laws::plain_text_passes(rest);
    lemma_two_parts(ink::fake_cursor_step(), unit, rest, unit, rest);
    assert(unit + rest =~= data);
}

/// The shape of a written CSI.
proof fn lemma_written_csi(params: Seq<u8>, last: u8)
    requires
        forall|i: int| 0 <= i < params.len() ==> 0x20 <= #[trigger] params[i] && params[i] <= 0x3f,
        0x40 <= last <= 0x7e,
    ensures
        csi::is_csi(written_csi(params, last)),
        is_plain(written_csi(params, last).skip(1)),
        forall|i: int|
            0 < i < written_csi(params, last).len() ==> written_csi(params, last)[i] != ESC,
{
    let unit = written_csi(params, last);
    assert forall|i: int| 2 <= i < unit.len() - 1 implies !csi::is_csi_final(#[trigger] unit[i])
        && unit[i] != ESC by {
        assert(unit[i] == params[i - 2]);
    }
    csi::lemma_after_final(unit, 2);
    assert(csi::is_csi_final(unit[unit.len() - 1]));
    match csi::after_final(unit, 2) {
        Some(end) => {
            assert(csi::is_csi_final(unit[end - 1]));
        },
        None => {},
    }
    assert forall|i: int| 0 <= i < unit.skip(1).len() implies unit.skip(1)[i] != ESC by {
        assert(unit.skip(1)[i] == unit[i + 1]);
    }
}

/// What droppers make of a CSI, whatever its parameters: exactly the sequences
/// that hide the cursor are dropped by the one, exactly those that set its shape
/// by the other.
pub proof fn control_sequences_are_known_by_their_parts(params: Seq<u8>, last: u8)
    requires
        forall|i: int| 0 <= i < params.len() ==> 0x20 <= #[trigger] params[i] && params[i] <= 0x3f,
        0x40 <= last <= 0x7e,
    ensures
        model::feed(
            dropping::drop_step(Dropped::CursorHide),
            seq![],
            written_csi(params, last),
        ) == (
            Seq::<u8>::empty(),
            if hides_cursor(Piece::Control { params, last }) {
                seq![]
            } else {
                written_csi(params, last)
            },
        ),
        model::feed(
            dropping::drop_step(Dropped::CursorShape),
            seq![],
            written_csi(params, last),
        ) == (
            Seq::<u8>::empty(),
            if sets_cursor_shape(Piece::Control { params, last }) {
                seq![]
            } else {
                written_csi(params, last)
            },
        ),
{
    let unit = written_csi(params, last);
    let piece = Piece::Control { params, last };
    lemma_written_csi(params, last);
    dropping::complete_sequence_is_dropped_or_kept(Dropped::CursorHide, unit);
    dropping::complete_sequence_is_dropped_or_kept(Dropped::CursorShape, unit);
    assert(dropping::is_dropped(Dropped::CursorHide, unit) == hides_cursor(piece)) by {
        let hide = dropping::HIDE_CURSOR@;
        if unit == hide {
            assert(params.len() == 3);
            assert forall|i: int| 0 <= i < 3 implies params[i] == hide[i + 2] by {
                assert(unit[i + 2] == params[i]);
            }
            assert(params =~= seq!['?' as u8, '2' as u8, '5' as u8]);
            assert(unit[5] == last);
        }
        if hides_cursor(piece) {
            assert(unit =~= hide);
        }
    }
    assert(dropping::is_dropped(Dropped::CursorShape, unit) == sets_cursor_shape(piece)) by {
        assert(unit[unit.len() - 1] == last);
        if params.len() > 0 {
            assert(unit[unit.len() - 2] == params.last());
            assert(unit.subrange(2, unit.len() - 2) =~= params.drop_last());
        }
    }
}

/// Every number sets a cursor shape, and so does none.
pub proof fn every_number_sets_a_cursor_shape(number: nat)
    ensures
        model::feed(
            dropping::drop_step(Dropped::CursorShape),
            seq![],
            written_csi(bytes::decimal_bytes(number).push(' ' as u8), 'q' as u8),
        ) == (Seq::<u8>::empty(), Seq::<u8>::empty()),
        model::feed(
            dropping::drop_step(Dropped::CursorShape),
            seq![],
            written_csi(seq![' ' as u8], 'q' as u8),
        ) == (Seq::<u8>::empty(), Seq::<u8>::empty()),
{
    let digits = bytes::decimal_bytes(number);
    bytes::written_numbers_read_back(number, seq![]);
    assert(Seq::<u8>::empty() + digits =~= digits);
    let params = digits.push(' ' as u8);
    assert(params.drop_last() =~= digits);
    assert forall|i: int| 0 <= i < params.len() implies 0x20 <= #[trigger] params[i] && params[i]
        <= 0x3f by {
        if i < digits.len() {
            assert(bytes::is_digit(digits[i]));
        }
    }
    control_sequences_are_known_by_their_parts(params, 'q' as u8);
    control_sequences_are_known_by_their_parts(seq![' ' as u8], 'q' as u8);
}

/// An SGR, or nothing, passes both droppers and the OSC rules.
proof fn lemma_sgr_passes<R: OscRule>(rule: R, attributes: Seq<Attribute>)
    requires
        forall|i: int|
            0 <= i < attributes.len() ==> sgr_laws::is_attribute(#[trigger] attributes[i]),
    ensures
        ({
            let data = sgr_laws::written_sgr(attributes);
            &&& model::feed(dropping::drop_step(Dropped::CursorHide), seq![], data) == (
                Seq::<u8>::empty(),
                data,
            )
            &&& model::feed(dropping::drop_step(Dropped::CursorShape), seq![], data) == (
                Seq::<u8>::empty(),
                data,
            )
            &&& model::feed(osc::osc_step(rule), seq![], data) == (Seq::<u8>::empty(), data)
        }),
{
    let text = sgr_laws::attributes_text(attributes);
    sgr_laws::attributes_are_written_in_numbers(attributes);
    assert forall|i: int| 0 <= i < text.len() implies 0x20 <= #[trigger] text[i] && text[i]
        <= 0x3f by {
        assert(sgr_laws::is_sgr_byte(text[i]));
    }
    assert(sgr_laws::written_sgr(attributes) =~= written_csi(text, 'm' as u8));
    lemma_written_csi(text, 'm' as u8);
    control_sequences_are_known_by_their_parts(text, 'm' as u8);
    lemma_osc_step_passes(rule, written_csi(text, 'm' as u8));
}

proof fn lemma_attributes_without(attributes: Seq<Attribute>, number: u16)
    requires
        forall|i: int|
            0 <= i < attributes.len() ==> sgr_laws::is_attribute(#[trigger] attributes[i]),
    ensures
        forall|i: int|
            0 <= i < sgr_laws::attributes_without(attributes, number).len()
                ==> sgr_laws::is_attribute(
                #[trigger] sgr_laws::attributes_without(attributes, number)[i],
            ),
    decreases attributes.len(),
{
    if attributes.len() > 0 {
        let rest = attributes.drop_first();
        assert forall|i: int| 0 <= i < rest.len() implies sgr_laws::is_attribute(
            #[trigger] rest[i],
        ) by {
            assert(rest[i] == attributes[i + 1]);
        }
        assert(sgr_laws::is_attribute(attributes[0]));
        lemma_attributes_without(rest, number);
        let left = sgr_laws::attributes_without(attributes, number);
        let others = sgr_laws::attributes_without(rest, number);
        assert forall|i: int| 0 <= i < left.len() implies sgr_laws::is_attribute(
            #[trigger] left[i],
        ) by {
            if left.len() == others.len() {
                assert(left[i] == others[i]);
            } else if i > 0 {
                assert(left[i] == others[i - 1]);
            }
        }
    }
}

/// SGRs with text between them pass both droppers and the OSC rules.
proof fn lemma_styled_text_passes<R: OscRule>(
    rule: R,
    front: Seq<u8>,
    inner: Seq<u8>,
    back: Seq<u8>,
    on: Seq<Attribute>,
    off: Seq<Attribute>,
)
    requires
        forall|i: int| 0 <= i < on.len() ==> sgr_laws::is_attribute(#[trigger] on[i]),
        forall|i: int| 0 <= i < off.len() ==> sgr_laws::is_attribute(#[trigger] off[i]),
        front.len() == 0 || front == sgr_laws::written_sgr(on),
        back.len() == 0 || back == sgr_laws::written_sgr(off),
        is_plain(inner),
    ensures
        ({
            let data = front + inner + back;
            &&& model::feed(dropping::drop_step(Dropped::CursorHide), seq![], data) == (
                Seq::<u8>::empty(),
                data,
            )
            &&& model::feed(dropping::drop_step(Dropped::CursorShape), seq![], data) == (
                Seq::<u8>::empty(),
                data,
            )
            &&& model::feed(osc::osc_step(rule), seq![], data) == (Seq::<u8>::empty(), data)
        }),
{
    let hide = dropping::drop_step(Dropped::CursorHide);
    let shape = dropping::drop_step(Dropped::CursorShape);
    let rules = osc::osc_step(rule);
    let none = Seq::<u8>::empty();
    lemma_sgr_passes(rule, on);
    lemma_sgr_passes(rule, off);
    lemma_plain(inner);
    dropping::plain_text_passes(Dropped::CursorHide, inner);
    dropping::plain_text_passes(Dropped::CursorShape, inner);
    osc::plain_text_passes(rule, inner);
    if front.len() == 0 {
        assert(front =~= none);
    }
    if back.len() == 0 {
        assert(back =~= none);
    }
    lemma_two_parts(hide, front, inner, front, inner);
    lemma_two_parts(hide, front + inner, back, front + inner, back);
    lemma_two_parts(shape, front, inner, front, inner);
    lemma_two_parts(shape, front + inner, back, front + inner, back);
    lemma_two_parts(rules, front, inner, front, inner);
    lemma_two_parts(rules, front + inner, back, front + inner, back);
}

/// An OSC without ESCs inside is two escapes and text, or one and text.
proof fn lemma_osc_passes_others(field: Seq<u8>, payload: Seq<u8>, terminator: Seq<u8>)
    requires
        osc_laws::can_be_written(field, payload, terminator),
        is_plain(field + payload),
    ensures
        ({
            let data = osc_laws::written_osc(field, payload, terminator);
            &&& model::feed(ink::fake_cursor_step(), seq![], data) == (Seq::<u8>::empty(), data)
            &&& model::feed(dropping::drop_step(Dropped::CursorHide), seq![], data) == (
                Seq::<u8>::empty(),
                data,
            )
            &&& model::feed(dropping::drop_step(Dropped::CursorShape), seq![], data) == (
                Seq::<u8>::empty(),
                data,
            )
        }),
{
    let data = osc_laws::written_osc(field, payload, terminator);
    let text = field + payload;
    if terminator.len() == 1 {
        assert(data.skip(1) =~= seq![CLOSE_BRACKET] + text + terminator);
        lemma_ink_step_passes(data);
        lemma_drop_step_passes(Dropped::CursorHide, data);
        lemma_drop_step_passes(Dropped::CursorShape, data);
    } else {
        let front = seq![ESC, CLOSE_BRACKET] + text;
        assert(front.skip(1) =~= seq![CLOSE_BRACKET] + text);
        assert(terminator.skip(1) =~= seq![bytes::BACKSLASH]);
        lemma_ink_step_passes(front);
        lemma_drop_step_passes(Dropped::CursorHide, front);
        lemma_drop_step_passes(Dropped::CursorShape, front);
        lemma_ink_step_passes(terminator);
        lemma_drop_step_passes(Dropped::CursorHide, terminator);
        lemma_drop_step_passes(Dropped::CursorShape, terminator);
        lemma_two_parts(ink::fake_cursor_step(), front, terminator, front, terminator);
        lemma_two_parts(
            dropping::drop_step(Dropped::CursorHide),
            front,
            terminator,
            front,
            terminator,
        );
        lemma_two_parts(
            dropping::drop_step(Dropped::CursorShape),
            front,
            terminator,
            front,
            terminator,
        );
        assert(front + terminator =~= data);
    }
}

/// What the fake cursor filter makes of a piece.
pub proof fn fake_cursors_are_stripped(piece: Piece)
    requires
        is_piece(piece),
    ensures
        model::feed(ink::fake_cursor_step(), seq![], written(piece)) == (
            Seq::<u8>::empty(),
            without_fake_cursor(piece),
        ),
{
    let data = written(piece);
    match piece {
        Piece::Byte(_) => {
            ink_laws::lemma_unit_passes(data);
        },
        Piece::Escape(_) => {
            ink_laws::lemma_unit_passes(data);
        },
        Piece::Control { params, last } => {
            lemma_written_csi(params, last);
            ink_laws::lemma_unit_passes(data);
        },
        Piece::Numbered { code, payload, terminator } => {
            lemma_number_is_plain(code, payload);
            lemma_osc_passes_others(bytes::decimal_bytes(code), payload, terminator);
        },
        Piece::Unnumbered { field, payload, terminator } => {
            lemma_osc_passes_others(field, payload, terminator);
        },
        Piece::Inverse { opening, inner, closing } => {
            ink_laws::fake_cursors_lose_their_inverse(opening, inner, closing);
        },
    }
}

proof fn lemma_number_is_plain(code: nat, payload: Seq<u8>)
    requires
        is_plain(payload),
    ensures
        is_plain(bytes::decimal_bytes(code) + payload),
{
    let digits = bytes::decimal_bytes(code);
    bytes::written_numbers_read_back(code, seq![]);
    assert(Seq::<u8>::empty() + digits =~= digits);
    assert forall|i: int| 0 <= i < (digits + payload).len() implies (digits + payload)[i] != ESC by {
        if i < digits.len() {
            assert(bytes::is_digit(digits[i]));
        } else {
            assert((digits + payload)[i] == payload[i - digits.len()]);
        }
    }
}

/// What is left of a piece once fake cursors may have been stripped passes the
/// other filters, but for what they are there for.
proof fn lemma_other_filters<R: OscRule>(rule: R, piece: Piece, data: Seq<u8>)
    requires
        is_piece(piece),
        data == written(piece) || data == without_fake_cursor(piece),
    ensures
        model::feed(dropping::drop_step(Dropped::CursorHide), seq![], data) == (
            Seq::<u8>::empty(),
            if hides_cursor(piece) {
                seq![]
            } else {
                data
            },
        ),
        model::feed(dropping::drop_step(Dropped::CursorShape), seq![], data) == (
            Seq::<u8>::empty(),
            if sets_cursor_shape(piece) {
                seq![]
            } else {
                data
            },
        ),
        !(piece is Numbered) && !(piece is Unnumbered) ==> model::feed(
            osc::osc_step(rule),
            seq![],
            data,
        ) == (Seq::<u8>::empty(), data),
{
    match piece {
        Piece::Byte(_) => {
            lemma_plain(data);
            dropping::plain_text_passes(Dropped::CursorHide, data);
            dropping::plain_text_passes(Dropped::CursorShape, data);
            osc::plain_text_passes(rule, data);
        },
        Piece::Escape(byte) => {
            assert(data.skip(1) =~= seq![byte]);
            lemma_drop_step_passes(Dropped::CursorHide, data);
            lemma_drop_step_passes(Dropped::CursorShape, data);
            lemma_osc_step_passes(rule, data);
        },
        Piece::Control { params, last } => {
            lemma_written_csi(params, last);
            control_sequences_are_known_by_their_parts(params, last);
            lemma_osc_step_passes(rule, data);
        },
        Piece::Numbered { code, payload, terminator } => {
            lemma_number_is_plain(code, payload);
            lemma_osc_passes_others(bytes::decimal_bytes(code), payload, terminator);
        },
        Piece::Unnumbered { field, payload, terminator } => {
            lemma_osc_passes_others(field, payload, terminator);
        },
        Piece::Inverse { opening, inner, closing } => {
            let on = sgr_laws::attributes_without(opening, 7);
            let off = sgr_laws::attributes_without(closing, 27);
            let none = Seq::<u8>::empty();
            let front = if on.len() == 0 {
                none
            } else {
                sgr_laws::written_sgr(on)
            };
            let back = if off.len() == 0 || sgr_laws::sets(closing, 0) {
                none
            } else {
                sgr_laws::written_sgr(off)
            };
            lemma_attributes_without(opening, 7);
            lemma_attributes_without(closing, 27);
            lemma_styled_text_passes(rule, front, inner, back, on, off);
            lemma_styled_text_passes(
                rule,
                sgr_laws::written_sgr(opening),
                inner,
                sgr_laws::written_sgr(closing),
                opening,
                closing,
            );
        },
    }
}

/// What the cursor filters make of what is left of a piece.
pub proof fn cursor_sequences_are_dropped(piece: Piece, data: Seq<u8>)
    requires
        is_piece(piece),
        data == written(piece) || data == without_fake_cursor(piece),
    ensures
        model::feed(dropping::drop_step(Dropped::CursorHide), seq![], data) == (
            Seq::<u8>::empty(),
            if hides_cursor(piece) {
                seq![]
            } else {
                data
            },
        ),
        model::feed(dropping::drop_step(Dropped::CursorShape), seq![], data) == (
            Seq::<u8>::empty(),
            if sets_cursor_shape(piece) {
                seq![]
            } else {
                data
            },
        ),
{
    lemma_other_filters(DropTitles, piece, data);
}

/// What the title filter makes of what is left of a piece.
pub proof fn titles_are_dropped(piece: Piece, data: Seq<u8>)
    requires
        is_piece(piece),
        data == written(piece) || data == without_fake_cursor(piece),
    ensures
        model::feed(osc::osc_step(DropTitles), seq![], data) == (
            Seq::<u8>::empty(),
            if sets_title(piece) {
                seq![]
            } else {
                data
            },
        ),
{
    match piece {
        Piece::Numbered { code, payload, terminator } => {
            assert(Seq::<u8>::empty() + bytes::decimal_bytes(code) =~= bytes::decimal_bytes(code));
            osc_laws::titles_are_known_by_their_number(code, seq![], payload, terminator);
        },
        Piece::Unnumbered { field, payload, terminator } => {
            osc_laws::oscs_without_a_number_pass_as_titles(field, payload, terminator);
        },
        _ => {
            lemma_other_filters(DropTitles, piece, data);
        },
    }
}

/// What the passthrough filter makes of what is left of a piece.
pub proof fn listed_pieces_are_relayed(rule: WrapListed, piece: Piece, data: Seq<u8>)
    requires
        is_piece(piece),
        data == written(piece) || data == without_fake_cursor(piece),
    ensures
        model::feed(osc::osc_step(rule), seq![], data) == (
            Seq::<u8>::empty(),
            if is_listed(rule.codes@, piece) {
                crate::filters::tmux_osc_passthrough::tmux_wrapped(data)
            } else {
                data
            },
        ),
{
    match piece {
        Piece::Numbered { code, payload, terminator } => {
            assert(Seq::<u8>::empty() + bytes::decimal_bytes(code) =~= bytes::decimal_bytes(code));
            osc_laws::listed_numbers_are_relayed(rule, code, seq![], payload, terminator);
        },
        Piece::Unnumbered { field, payload, terminator } => {
            osc_laws::oscs_without_a_number_pass(rule, field, payload, terminator);
        },
        _ => {
            lemma_other_filters(rule, piece, data);
        },
    }
}

} // verus!
