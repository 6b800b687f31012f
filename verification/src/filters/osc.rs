//! Collecting OSCs.
use std::borrow::Cow;
use vstd::prelude::*;

use crate::bytes::{
    self, digits_only, find_field_end, parse_decimal, BACKSLASH, BEL, CLOSE_BRACKET, ESC,
};
use crate::filters::model;

verus! {

/// How far the bytes after `ESC ]` have come.
#[derive(Debug, Clone, Copy, PartialEq, Eq, Structural)]
pub enum OscPhase {
    /// Not at the end.
    Open,
    /// Not at the end, with an `ESC` that a `\` may follow.
    Escape,
    /// The terminator has been seen.
    Complete,
}

/// How far `body`, the bytes after `ESC ]`, has come. A BEL ends it, and so
/// does `ESC \`; an `ESC` before any other byte belongs to the payload.
pub open spec fn osc_phase(body: Seq<u8>) -> OscPhase
    decreases body.len(),
{
    if body.len() == 0 {
        OscPhase::Open
    } else {
        match osc_phase(body.drop_last()) {
            OscPhase::Open => if body.last() == BEL {
                OscPhase::Complete
            } else if body.last() == ESC {
                OscPhase::Escape
            } else {
                OscPhase::Open
            },
            OscPhase::Escape => if body.last() == BACKSLASH || body.last() == BEL {
                OscPhase::Complete
            } else if body.last() == ESC {
                OscPhase::Escape
            } else {
                OscPhase::Open
            },
            OscPhase::Complete => OscPhase::Complete,
        }
    }
}

/// Whether `bytes` starts with `ESC ]`.
pub open spec fn is_osc_start(bytes: Seq<u8>) -> bool {
    bytes.len() >= 2 && bytes[0] == ESC && bytes[1] == CLOSE_BRACKET
}

/// Whether `bytes` is one OSC, up to and with its terminator and no further.
pub open spec fn is_osc(bytes: Seq<u8>) -> bool {
    &&& is_osc_start(bytes)
    &&& osc_phase(bytes.skip(2)) is Complete
    &&& !(osc_phase(bytes.skip(2).drop_last()) is Complete)
}

/// The number of ESCs that `bytes` starts with.
pub open spec fn leading_escapes(bytes: Seq<u8>) -> int
    decreases bytes.len(),
{
    if bytes.len() > 0 && bytes[0] == ESC {
        1 + leading_escapes(bytes.skip(1))
    } else {
        0
    }
}

/// The ESCs in front of the last of those that `bytes` starts with. A terminal
/// makes nothing of them.
pub open spec fn lone_escapes(bytes: Seq<u8>) -> Seq<u8> {
    if leading_escapes(bytes) > 0 {
        bytes.take(leading_escapes(bytes) - 1)
    } else {
        seq![]
    }
}

/// What stands behind them: the sequence that a terminal sees.
pub open spec fn sequence_of(bytes: Seq<u8>) -> Seq<u8> {
    bytes.skip(lone_escapes(bytes).len() as int)
}

/// Whether `held` is the start of an OSC that is not complete, with any number
/// of ESCs in front of it, or nothing.
pub open spec fn is_partial_osc(held: Seq<u8>) -> bool {
    ||| leading_escapes(held) == held.len()
    ||| is_osc_start(sequence_of(held)) && !(osc_phase(sequence_of(held).skip(2)) is Complete)
}

/// The bytes of a complete OSC between `ESC ]` and the terminator.
pub open spec fn osc_body(sequence: Seq<u8>) -> Seq<u8> {
    sequence.subrange(
        2,
        sequence.len() - if sequence.last() == BEL {
            1
        } else {
            2int
        },
    )
}

/// The number in front of an OSC's payload, where there is one that fits.
pub open spec fn osc_code(sequence: Seq<u8>) -> Option<u16> {
    let field = bytes::field_at(osc_body(sequence), 0);
    if field.len() > 0 && bytes::all_digits(field) {
        bytes::decimal_u16(field)
    } else {
        None
    }
}

/// What a complete OSC is replaced with.
pub trait OscRule {
    /// The bytes that stand for `sequence`, an OSC with the given code. Unless
    /// an implementation says otherwise, the OSC itself.
    open spec fn rendering(&self, code: Option<u16>, sequence: Seq<u8>) -> Seq<u8> {
        sequence
    }

    /// Appends the bytes that stand for `sequence` to `out`.
    fn render(&self, code: Option<u16>, sequence: &[u8], out: &mut Vec<u8>)
        ensures
            final(out)@ == old(out)@ + self.rendering(code, sequence@),
    ;
}

/// The start of an OSC is held back, and so are ESCs in front of it. A complete
/// OSC is let out as `rule` renders it. Where that is nothing, the ESCs in
/// front of it stay held back, so that they cannot make a sequence of what
/// follows unseen. Everything else is let out as it is.
pub open spec fn osc_step<R: OscRule>(rule: R) -> model::ByteStep {
    |held: Seq<u8>, byte: u8|
        {
            let seen = held.push(byte);
            let osc = sequence_of(seen);
            if is_partial_osc(seen) {
                (seen, seq![])
            } else if is_osc_start(osc) {
                let rendered = rule.rendering(osc_code(osc), osc);
                if rendered.len() == 0 {
                    (lone_escapes(seen), seq![])
                } else {
                    (seq![], lone_escapes(seen) + rendered)
                }
            } else {
                (seq![], seen)
            }
        }
}

#[derive(Debug, Clone, Copy, PartialEq, Eq, Structural)]
enum State {
    Normal,
    Escape,
    Osc,
    OscEscape,
}

/// Collects complete OSCs without decoding or regenerating their payloads.
#[derive(Debug)]
pub struct OscScanner {
    pending: Vec<u8>,
    start: usize,
    state: State,
}

/// One byte behind ESCs and what follows them.
proof fn lemma_leading_escapes_push(held: Seq<u8>, byte: u8)
    ensures
        0 <= leading_escapes(held) <= held.len(),
        forall|i: int| 0 <= i < leading_escapes(held) ==> held[i] == ESC,
        leading_escapes(held) < held.len() ==> held[leading_escapes(held)] != ESC,
        leading_escapes(held.push(byte)) == if leading_escapes(held) == held.len() && byte == ESC {
            leading_escapes(held) + 1
        } else {
            leading_escapes(held)
        },
    decreases held.len(),
{
    let seen = held.push(byte);
    if held.len() > 0 && held[0] == ESC {
        lemma_leading_escapes_push(held.skip(1), byte);
        assert(seen.skip(1) =~= held.skip(1).push(byte));
        assert forall|i: int| 0 <= i < leading_escapes(held) implies held[i] == ESC by {
            if i > 0 {
                assert(held.skip(1)[i - 1] == held[i]);
            }
        }
    } else if held.len() == 0 {
        assert(leading_escapes(seen.skip(1)) == 0) by {
            assert(seen.skip(1).len() == 0);
        }
    }
}

/// What one byte makes of a partial OSC.
proof fn lemma_partial_push(held: Seq<u8>, byte: u8)
    requires
        is_partial_osc(held),
    ensures
        ({
            let seen = held.push(byte);
            let escapes = leading_escapes(held);
            if escapes == held.len() {
                if byte == ESC {
                    is_partial_osc(seen) && leading_escapes(seen) == held.len() + 1
                } else {
                    &&& leading_escapes(seen) == held.len()
                    &&& held.len() == 0 ==> !is_partial_osc(seen) && !is_osc_start(
                        sequence_of(seen),
                    )
                    &&& held.len() > 0 ==> {
                        &&& sequence_of(seen) == seq![ESC, byte]
                        &&& is_osc_start(sequence_of(seen)) == (byte == CLOSE_BRACKET)
                        &&& is_partial_osc(seen) == (byte == CLOSE_BRACKET)
                        &&& osc_phase(sequence_of(seen).skip(2)) is Open
                    }
                }
            } else {
                &&& 0 < escapes
                &&& leading_escapes(seen) == escapes
                &&& lone_escapes(seen) == lone_escapes(held)
                &&& sequence_of(seen) == sequence_of(held).push(byte)
                &&& is_osc_start(sequence_of(seen))
                &&& sequence_of(seen).skip(2).drop_last() == sequence_of(held).skip(2)
                &&& sequence_of(seen).skip(2).last() == byte
                &&& is_partial_osc(seen) == !(osc_phase(sequence_of(seen).skip(2)) is Complete)
            }
        }),
{
    let seen = held.push(byte);
    let escapes = leading_escapes(held);
    lemma_leading_escapes_push(held, byte);
    if escapes == held.len() {
        if byte != ESC && held.len() > 0 {
            assert(sequence_of(seen) =~= seq![ESC, byte]);
            assert(sequence_of(seen).skip(2) =~= seq![]);
        } else if byte != ESC {
            assert(sequence_of(seen).len() == 1);
        }
    } else {
        assert(escapes > 0) by {
            if escapes == 0 {
                assert(sequence_of(held) =~= held);
            }
        }
        assert(lone_escapes(seen) =~= lone_escapes(held));
        assert(sequence_of(seen) =~= sequence_of(held).push(byte));
        assert(sequence_of(seen).skip(2).drop_last() =~= sequence_of(held).skip(2));
    }
}

/// What a byte makes an OSC of that was none before it is one.
pub proof fn lemma_completed(held: Seq<u8>, byte: u8)
    requires
        is_partial_osc(held),
        !is_partial_osc(held.push(byte)),
        is_osc_start(sequence_of(held.push(byte))),
    ensures
        is_osc(sequence_of(held.push(byte))),
        forall|i: int|
            0 <= i < lone_escapes(held.push(byte)).len() ==> lone_escapes(held.push(byte))[i]
                == ESC,
{
    let seen = held.push(byte);
    lemma_partial_push(held, byte);
    lemma_leading_escapes_push(held, byte);
    lemma_leading_escapes_push(seen, byte);
}

/// The ESCs in front are part of what they stand in front of.
pub proof fn lemma_escapes_of(bytes: Seq<u8>)
    ensures
        bytes == lone_escapes(bytes) + sequence_of(bytes),
{
    lemma_leading_escapes_push(bytes, ESC);
    assert(bytes =~= lone_escapes(bytes) + sequence_of(bytes));
}

/// ESCs by themselves are partial.
proof fn lemma_escapes_are_partial(bytes: Seq<u8>)
    requires
        forall|i: int| 0 <= i < bytes.len() ==> bytes[i] == ESC,
    ensures
        leading_escapes(bytes) == bytes.len(),
        is_partial_osc(bytes),
{
    lemma_leading_escapes_push(bytes, ESC);
}

impl OscScanner {
    /// The bytes that are held back.
    pub closed spec fn held(self) -> Seq<u8> {
        self.pending@
    }

    /// Whether the bytes held back are the start of an OSC, where it starts is
    /// known, and the state says how far it has come.
    pub closed spec fn well_formed(self) -> bool {
        let osc = sequence_of(self.pending@);
        &&& is_partial_osc(self.pending@)
        &&& self.pending@.len() > 0 ==> self.start == lone_escapes(self.pending@).len()
        &&& match self.state {
            State::Normal => self.pending@.len() == 0,
            State::Escape => self.pending@.len() > 0 && leading_escapes(self.pending@)
                == self.pending@.len(),
            State::Osc => is_osc_start(osc) && osc_phase(osc.skip(2)) is Open,
            State::OscEscape => is_osc_start(osc) && osc_phase(osc.skip(2)) is Escape,
        }
    }

    /// Creates a scanner that holds back nothing.
    pub fn new() -> (scanner: Self)
        ensures
            scanner.well_formed(),
            scanner.held() == Seq::<u8>::empty(),
    {
        OscScanner { pending: Vec::new(), start: 0, state: State::Normal }
    }

    /// Takes one byte, and appends to `out` what is let out.
    fn take<R: OscRule>(&mut self, byte: u8, out: &mut Vec<u8>, rule: &R)
        requires
            old(self).well_formed(),
        ensures
            final(self).well_formed(),
            ({
                let step = osc_step(*rule)(old(self).pending@, byte);
                final(self).pending@ == step.0 && final(out)@ == old(out)@ + step.1
            }),
    {
        let ghost held = self.pending@;
        let ghost seen = held.push(byte);
        proof {
            lemma_leading_escapes_push(held, byte);
            lemma_leading_escapes_push(seen, byte);
            lemma_partial_push(held, byte);
            assert(out@ + Seq::<u8>::empty() =~= out@);
            if leading_escapes(held) == held.len() {
                assert(is_osc_start(sequence_of(held)) ==> false);
            } else {
                assert(!(held.len() == 0));
            }
        }
        let len: usize = self.pending.len();
        self.pending.push(byte);
        match self.state {
            State::Normal => {
                if byte == ESC {
                    self.start = 0;
                    self.state = State::Escape;
                } else {
                    out.append(&mut self.pending);
                }
            },
            State::Escape => {
                if byte == ESC {
                    self.start = len;
                } else if byte == CLOSE_BRACKET {
                    self.state = State::Osc;
                } else {
                    out.append(&mut self.pending);
                    self.state = State::Normal;
                }
            },
            State::Osc => {
                if byte == BEL {
                    self.complete(out, rule);
                } else if byte == ESC {
                    self.state = State::OscEscape;
                }
            },
            State::OscEscape => {
                if byte == BACKSLASH || byte == BEL {
                    self.complete(out, rule);
                } else if byte != ESC {
                    self.state = State::Osc;
                }
            },
        }
    }

    fn complete<R: OscRule>(&mut self, out: &mut Vec<u8>, rule: &R)
        requires
            old(self).start == lone_escapes(old(self).pending@).len(),
            is_osc(sequence_of(old(self).pending@)),
        ensures
            final(self).well_formed(),
            ({
                let seen = old(self).pending@;
                let osc = sequence_of(seen);
                let rendered = rule.rendering(osc_code(osc), osc);
                if rendered.len() == 0 {
                    final(self).pending@ == lone_escapes(seen) && final(out)@ == old(out)@
                } else {
                    &&& final(self).pending@ == Seq::<u8>::empty()
                    &&& final(out)@ == old(out)@ + (lone_escapes(seen) + rendered)
                }
            }),
    {
        let ghost seen = self.pending@;
        let ghost osc = sequence_of(seen);
        let start: usize = self.start;
        let len: usize = self.pending.len();
        proof {
            lemma_leading_escapes_push(seen, ESC);
            lemma_osc_lengths(osc);
            assert(osc.last() == seen.last());
        }
        let terminator_len: usize = if self.pending[len - 1] == BEL {
            1
        } else {
            2
        };
        let sequence = &self.pending.as_slice()[start..len];
        assert(sequence@ =~= osc);
        let body = &sequence[2..sequence.len() - terminator_len];
        assert(body@ =~= osc_body(osc));
        let field = &body[0..find_field_end(body, 0)];
        let code: Option<u16> = if field.len() > 0 && digits_only(field) {
            parse_decimal(field)
        } else {
            None
        };
        let mut rendered: Vec<u8> = Vec::new();
        rule.render(code, sequence, &mut rendered);
        assert(rendered@ =~= rule.rendering(osc_code(osc), osc));
        self.pending.truncate(start);
        assert(self.pending@ =~= lone_escapes(seen));
        proof {
            lemma_escapes_are_partial(self.pending@);
        }
        if rendered.len() == 0 {
            if start == 0 {
                self.state = State::Normal;
            } else {
                self.start = start - 1;
                self.state = State::Escape;
            }
        } else {
            out.append(&mut self.pending);
            out.append(&mut rendered);
            self.state = State::Normal;
            assert(out@ =~= old(out)@ + (lone_escapes(seen) + rule.rendering(osc_code(osc), osc)));
        }
    }

    /// Filters a chunk, with each OSC that becomes complete in it rendered by
    /// `rule`.
    pub fn filter<'a, R: OscRule>(&mut self, data: &'a [u8], rule: &R) -> (out: Cow<'a, [u8]>)
        requires
            old(self).well_formed(),
        ensures
            final(self).well_formed(),
            (final(self).held(), out@) == model::feed(osc_step(*rule), old(self).held(), data@),
            out is Borrowed <==> old(self).held().len() == 0 && !data@.contains(ESC),
    {
        let ghost step = osc_step(*rule);
        if self.pending.len() == 0 && memchr::memchr(ESC, data).is_none() {
            proof {
                assert(self.pending@ =~= seq![]);
                plain_text_passes(*rule, data@);
            }
            return Cow::Borrowed(data);
        }
        let mut out: Vec<u8> = Vec::with_capacity(data.len());
        let mut i: usize = 0;
        while i < data.len()
            invariant
                i <= data@.len(),
                step == osc_step(*rule),
                self.well_formed(),
                (self.pending@, out@) == model::feed(step, old(self).pending@, data@.take(i as int)),
            decreases data@.len() - i,
        {
            proof {
                let taken = data@.take(i as int);
                model::lemma_feed_push(step, old(self).pending@, taken, data@[i as int]);
                assert(taken.push(data@[i as int]) =~= data@.take(i + 1));
            }
            self.take(data[i], &mut out, rule);
            i += 1;
        }
        assert(data@.take(i as int) =~= data@);
        Cow::Owned(out)
    }

    /// Returns what is held back, which no terminator will complete.
    pub fn finish(&mut self) -> (tail: Vec<u8>)
        ensures
            final(self).well_formed(),
            final(self).held() == Seq::<u8>::empty(),
            tail@ == old(self).held(),
    {
        let mut tail: Vec<u8> = Vec::new();
        tail.append(&mut self.pending);
        self.state = State::Normal;
        tail
    }
}

impl Default for OscScanner {
    fn default() -> (scanner: Self)
        ensures
            scanner.well_formed(),
            scanner.held() == Seq::<u8>::empty(),
    {
        OscScanner::new()
    }
}

/// The header and the terminator of a complete OSC do not overlap.
pub proof fn lemma_osc_lengths(sequence: Seq<u8>)
    requires
        is_osc(sequence),
    ensures
        sequence.last() == BEL ==> sequence.len() >= 3,
        sequence.last() != BEL ==> sequence.len() >= 4 && sequence.last() == BACKSLASH,
{
    let body = sequence.skip(2);
    assert(body.last() == sequence.last());
    if sequence.last() != BEL {
        assert(osc_phase(body.drop_last()) is Escape);
        assert(body.drop_last().len() > 0);
    }
}

/// Text without escape sequences passes unchanged.
pub proof fn plain_text_passes<R: OscRule>(rule: R, data: Seq<u8>)
    requires
        !data.contains(ESC),
    ensures
        model::feed(osc_step(rule), seq![], data) == (Seq::<u8>::empty(), data),
{
    assert forall|byte: u8| byte != ESC implies #[trigger] osc_step(rule)(seq![], byte) == (
        Seq::<u8>::empty(),
        seq![byte],
    ) by {
        assert(Seq::<u8>::empty().push(byte) =~= seq![byte]);
    }
    model::lemma_feed_copies(osc_step(rule), ESC, data);
}

/// Whether `bytes` is one byte other than ESC, an escape, or one OSC, the
/// latter two with any number of ESCs in front; but with none in front of an OSC
/// that `rule` renders to nothing.
pub open spec fn is_unit<R: OscRule>(rule: R, bytes: Seq<u8>) -> bool {
    let osc = sequence_of(bytes);
    ||| bytes.len() == 1 && bytes[0] != ESC
    ||| bytes.len() >= 2 && leading_escapes(bytes) == bytes.len() - 1 && bytes.last()
        != CLOSE_BRACKET
    ||| {
        &&& leading_escapes(bytes) > 0
        &&& is_osc(osc)
        &&& lone_escapes(bytes).len() > 0 ==> rule.rendering(osc_code(osc), osc).len() > 0
    }
}

/// What is let out of a unit.
pub open spec fn unit_output<R: OscRule>(rule: R, unit: Seq<u8>) -> Seq<u8> {
    let osc = sequence_of(unit);
    if is_osc_start(osc) {
        lone_escapes(unit) + rule.rendering(osc_code(osc), osc)
    } else {
        unit
    }
}

/// No terminator stands before the end of an OSC.
proof fn lemma_phase_of_prefix(body: Seq<u8>, len: int)
    requires
        0 <= len <= body.len(),
        !(osc_phase(body) is Complete),
    ensures
        !(osc_phase(body.take(len)) is Complete),
    decreases body.len() - len,
{
    if len == body.len() {
        assert(body.take(len) =~= body);
    } else {
        lemma_phase_of_prefix(body, len + 1);
        assert(body.take(len + 1).drop_last() =~= body.take(len));
    }
}

proof fn lemma_leading_escapes_of_prefix(bytes: Seq<u8>, len: int)
    requires
        0 <= len <= bytes.len(),
    ensures
        leading_escapes(bytes.take(len)) == if len <= leading_escapes(bytes) {
            len
        } else {
            leading_escapes(bytes)
        },
{
    let prefix = bytes.take(len);
    lemma_leading_escapes_push(bytes, ESC);
    lemma_leading_escapes_push(prefix, ESC);
    let n = leading_escapes(prefix);
    if n < len {
        assert(prefix[n] == bytes[n]);
    }
    if leading_escapes(bytes) < n {
        assert(prefix[leading_escapes(bytes)] == bytes[leading_escapes(bytes)]);
    }
}

/// What starts a partial OSC, or one that its last byte completes, is partial.
proof fn lemma_prefix_is_partial(bytes: Seq<u8>, len: int)
    requires
        leading_escapes(bytes) > 0,
        is_osc_start(sequence_of(bytes)) || leading_escapes(bytes) >= len,
        0 <= len <= bytes.len(),
        is_osc_start(sequence_of(bytes)) && len == bytes.len() ==> !(osc_phase(
            sequence_of(bytes).skip(2),
        ) is Complete),
        leading_escapes(bytes) < len < bytes.len() ==> !(osc_phase(
            sequence_of(bytes).skip(2).drop_last(),
        ) is Complete),
    ensures
        is_partial_osc(bytes.take(len)),
{
    let prefix = bytes.take(len);
    let escapes = leading_escapes(bytes);
    lemma_leading_escapes_push(bytes, ESC);
    lemma_leading_escapes_of_prefix(bytes, len);
    if len > escapes {
        let osc = sequence_of(bytes);
        assert(lone_escapes(prefix) =~= lone_escapes(bytes));
        assert(sequence_of(prefix) =~= osc.take(len - escapes + 1));
        if len < bytes.len() {
            let body = osc.skip(2).drop_last();
            lemma_phase_of_prefix(body, len - escapes - 1);
            assert(sequence_of(prefix).skip(2) =~= body.take(len - escapes - 1));
        } else {
            assert(prefix =~= bytes);
        }
    }
}

/// A unit by itself.
pub proof fn units_are_rendered<R: OscRule>(rule: R, unit: Seq<u8>)
    requires
        is_unit(rule, unit),
    ensures
        model::feed(osc_step(rule), seq![], unit) == (
            Seq::<u8>::empty(),
            unit_output(rule, unit),
        ),
{
    let step = osc_step(rule);
    let len = unit.len() - 1;
    let none = Seq::<u8>::empty();
    lemma_leading_escapes_push(unit, ESC);
    assert forall|i: int| 0 <= i < len implies step(unit.take(i), #[trigger] unit[i]) == (
        unit.take(i + 1),
        none,
    ) by {
        assert(unit.take(i).push(unit[i]) =~= unit.take(i + 1));
        lemma_prefix_is_partial(unit, i + 1);
    }
    model::lemma_feed_holds(step, unit, len);
    let held = unit.take(len);
    assert(held.push(unit[len]) =~= unit);
    assert(held =~= unit.drop_last());
    if leading_escapes(unit) == len {
        if len > 0 {
            assert(sequence_of(unit) =~= seq![ESC, unit.last()]);
            assert(sequence_of(unit).skip(2) =~= seq![]);
        } else {
            assert(sequence_of(unit).len() == 1);
        }
    }
    assert(lone_escapes(unit).len() == 0 ==> lone_escapes(unit) =~= none);
    assert(none + unit_output(rule, unit) =~= unit_output(rule, unit));
    assert(none + none =~= none);
}

/// A unit is its lone ESCs and what stands behind them; what stands behind
/// them is an OSC or does not start like one.
pub proof fn lemma_unit_parts<R: OscRule>(rule: R, unit: Seq<u8>)
    requires
        is_unit(rule, unit),
    ensures
        unit == lone_escapes(unit) + sequence_of(unit),
        is_osc_start(sequence_of(unit)) == is_osc(sequence_of(unit)),
        lone_escapes(unit).len() == 0 ==> sequence_of(unit) == unit,
        is_osc(unit) ==> sequence_of(unit) == unit,
{
    lemma_leading_escapes_push(unit, ESC);
    assert(unit =~= lone_escapes(unit) + sequence_of(unit));
    if leading_escapes(unit) == unit.len() - 1 && unit.len() >= 2 {
        assert(sequence_of(unit) =~= seq![ESC, unit.last()]);
        if is_osc(sequence_of(unit)) {
            lemma_osc_lengths(sequence_of(unit));
        }
    }
    if lone_escapes(unit).len() == 0 {
        assert(sequence_of(unit) =~= unit);
    }
    if is_osc(unit) {
        assert(leading_escapes(unit) == 1);
        assert(sequence_of(unit) =~= unit);
    }
}

pub proof fn lemma_tail_is_held<R: OscRule>(rule: R, tail: Seq<u8>)
    requires
        is_partial_osc(tail),
    ensures
        model::feed(osc_step(rule), seq![], tail) == (tail, Seq::<u8>::empty()),
{
    let step = osc_step(rule);
    let len = tail.len() as int;
    lemma_leading_escapes_push(tail, ESC);
    assert forall|i: int| 0 <= i < len implies step(tail.take(i), #[trigger] tail[i]) == (
        tail.take(i + 1),
        Seq::<u8>::empty(),
    ) by {
        assert(tail.take(i).push(tail[i]) =~= tail.take(i + 1));
        assert(leading_escapes(tail) > 0) by {
            if leading_escapes(tail) == 0 {
                assert(sequence_of(tail) =~= tail);
            }
        }
        if leading_escapes(tail) < tail.len() {
            let body = sequence_of(tail).skip(2);
            if leading_escapes(tail) < i + 1 < len {
                lemma_phase_of_prefix(body, body.len() - 1);
                assert(body.take(body.len() - 1) =~= body.drop_last());
            }
        }
        lemma_prefix_is_partial(tail, i + 1);
    }
    model::lemma_feed_holds(step, tail, len);
    assert(tail.take(len) =~= tail);
}

/// Whether `data` is a stream of units, with an incomplete OSC behind them.
pub open spec fn splits_into<R: OscRule>(
    rule: R,
    data: Seq<u8>,
    units: Seq<Seq<u8>>,
    tail: Seq<u8>,
) -> bool {
    &&& forall|i: int| 0 <= i < units.len() ==> is_unit(rule, #[trigger] units[i])
    &&& is_partial_osc(tail)
    &&& data == model::concat(units) + tail
}

/// Whether `rule` renders no OSC to nothing.
pub open spec fn never_drops<R: OscRule>(rule: R) -> bool {
    forall|osc: Seq<u8>| is_osc(osc) ==> (#[trigger] rule.rendering(osc_code(osc), osc)).len() > 0
}

/// Every stream is one of units, with an incomplete OSC behind them, where the
/// rule renders no OSC to nothing.
pub proof fn every_stream_splits<R: OscRule>(rule: R, data: Seq<u8>)
    requires
        never_drops(rule),
    ensures
        exists|units: Seq<Seq<u8>>, tail: Seq<u8>| splits_into(rule, data, units, tail),
    decreases data.len(),
{
    if data.len() == 0 {
        assert(data =~= model::concat(seq![]) + Seq::<u8>::empty());
        assert(splits_into(rule, data, seq![], seq![]));
    } else {
        every_stream_splits(rule, data.drop_last());
        let (units, tail) = choose|units: Seq<Seq<u8>>, tail: Seq<u8>|
            splits_into(rule, data.drop_last(), units, tail);
        let byte = data.last();
        let seen = tail.push(byte);
        assert(data =~= data.drop_last().push(byte));
        assert((model::concat(units) + tail).push(byte) =~= model::concat(units) + seen);
        lemma_partial_push(tail, byte);
        if is_partial_osc(seen) {
            assert(splits_into(rule, data, units, seen));
        } else {
            let more = units.push(seen);
            lemma_leading_escapes_push(tail, byte);
            assert(is_unit(rule, seen));
            assert(more.drop_last() =~= units);
            assert(model::concat(more) + Seq::<u8>::empty() =~= data);
            assert(splits_into(rule, data, more, seq![]));
        }
    }
}

/// Of a stream exactly the OSCs are rendered, each as a whole, however the
/// stream is cut; everything else keeps its bytes and its order. An OSC that
/// is not complete yet is held back.
pub proof fn only_oscs_are_rendered<R: OscRule>(
    rule: R,
    data: Seq<u8>,
    units: Seq<Seq<u8>>,
    tail: Seq<u8>,
)
    requires
        splits_into(rule, data, units, tail),
    ensures
        model::feed(osc_step(rule), seq![], data) == (
            tail,
            model::concat(units.map_values(|unit: Seq<u8>| unit_output(rule, unit))),
        ),
{
    let outs = units.map_values(|unit: Seq<u8>| unit_output(rule, unit));
    assert forall|i: int| 0 <= i < units.len() implies model::feed(
        osc_step(rule),
        seq![],
        #[trigger] units[i],
    ) == (Seq::<u8>::empty(), outs[i]) by {
        units_are_rendered(rule, units[i]);
    }
    lemma_tail_is_held(rule, tail);
    model::lemma_feed_units(osc_step(rule), units, outs, tail);
}

/// An OSC that is rendered to nothing leaves no trace, also behind ESCs: they
/// are still held back.
pub proof fn dropped_oscs_leave_no_trace<R: OscRule>(rule: R, escapes: Seq<u8>, osc: Seq<u8>)
    requires
        leading_escapes(escapes) == escapes.len(),
        is_osc(osc),
        rule.rendering(osc_code(osc), osc).len() == 0,
    ensures
        model::feed(osc_step(rule), escapes, osc) == (escapes, Seq::<u8>::empty()),
{
    let step = osc_step(rule);
    let none = Seq::<u8>::empty();
    let all = escapes + osc;
    let count = escapes.len() as int;
    let len = all.len() - 1;
    lemma_leading_escapes_push(escapes, ESC);
    lemma_leading_escapes_push(all, ESC);
    assert(leading_escapes(all) == count + 1) by {
        let n = leading_escapes(all);
        assert(all[count] == osc[0] && all[count + 1] == osc[1]);
        if n < count {
            assert(all[n] == escapes[n]);
        }
        if n > count + 1 {
            assert(all[count + 1] == ESC);
        }
    }
    assert(lone_escapes(all) =~= escapes);
    assert(sequence_of(all) =~= osc);
    // The ESCs, and then the OSC but for its last byte, are held back.
    lemma_escapes_are_partial(escapes);
    lemma_tail_is_held(rule, escapes);
    assert(all.take(count) =~= escapes);
    lemma_prefix_is_partial(all, len);
    lemma_tail_is_held(rule, all.take(len));
    let start = osc.drop_last();
    assert(escapes + start =~= all.take(len));
    model::lemma_feed_concat(step, none, escapes, start);
    let (held, out) = model::feed(step, escapes, start);
    assert(none + out =~= out);
    assert(all.take(len).push(osc.last()) =~= all);
    assert(none + none =~= none);
}

/// Whether `rule` renders every OSC to itself or to nothing.
pub open spec fn keeps_or_drops<R: OscRule>(rule: R) -> bool {
    forall|osc: Seq<u8>|
        is_osc(osc) ==> {
            ||| (#[trigger] rule.rendering(osc_code(osc), osc)).len() == 0
            ||| rule.rendering(osc_code(osc), osc) == osc
        }
}

/// What is let out of one byte passes unchanged, and what is held back after
/// it and let out of it is part of what was held back before it and itself.
pub proof fn lemma_step_keeps<R: OscRule>(rule: R, held: Seq<u8>, byte: u8)
    requires
        keeps_or_drops(rule),
        is_partial_osc(held),
    ensures
        ({
            let (next, out) = osc_step(rule)(held, byte);
            &&& is_partial_osc(next)
            &&& model::feed(osc_step(rule), seq![], out) == (Seq::<u8>::empty(), out)
            &&& model::is_subsequence(out + next, held.push(byte))
        }),
{
    let seen = held.push(byte);
    let none = Seq::<u8>::empty();
    let osc = sequence_of(seen);
    lemma_partial_push(held, byte);
    lemma_leading_escapes_push(held, byte);
    lemma_leading_escapes_push(seen, byte);
    model::lemma_subsequence_of_itself(seen);
    assert(none + seen =~= seen);
    assert(seen + none =~= seen);
    if !is_partial_osc(seen) {
        let lone = lone_escapes(seen);
        assert(seen =~= lone + osc);
        lemma_escapes_are_partial(lone);
        lemma_escapes_are_partial(none);
        if is_osc_start(osc) {
            assert(is_osc(osc));
            let rendered = rule.rendering(osc_code(osc), osc);
            if rendered.len() == 0 {
                model::lemma_subsequence_of_itself(lone);
                model::lemma_subsequence_concat(lone, lone, none, osc);
                assert(lone + none =~= lone);
                assert(none + lone =~= lone);
            } else {
                assert(is_unit(rule, seen));
                units_are_rendered(rule, seen);
            }
        } else {
            assert(is_unit(rule, seen));
            units_are_rendered(rule, seen);
        }
    }
}

/// Filtering twice is filtering once, where the rule keeps or drops each OSC:
/// what was let out passes unchanged, so no OSC that the rule drops is left in
/// it, not even one that formed where another was dropped. Bytes are only
/// removed.
pub proof fn filtering_twice_is_filtering_once<R: OscRule>(rule: R, data: Seq<u8>)
    requires
        keeps_or_drops(rule),
    ensures
        ({
            let (held, out) = model::feed(osc_step(rule), seq![], data);
            &&& model::feed(osc_step(rule), seq![], out) == (Seq::<u8>::empty(), out)
            &&& model::is_subsequence(out + held, data)
            &&& is_partial_osc(held)
        }),
    decreases data.len(),
{
    let step = osc_step(rule);
    let none = Seq::<u8>::empty();
    lemma_escapes_are_partial(none);
    if data.len() > 0 {
        filtering_twice_is_filtering_once(rule, data.drop_last());
        let (held, out) = model::feed(step, seq![], data.drop_last());
        lemma_step_keeps(rule, held, data.last());
        let more = step(held, data.last()).1;
        model::lemma_feed_concat(step, none, out, more);
    }
    assert forall|h: Seq<u8>, byte: u8| is_partial_osc(h) implies is_partial_osc(
        (#[trigger] step(h, byte)).0,
    ) && model::is_subsequence(step(h, byte).1 + step(h, byte).0, h.push(byte)) by {
        lemma_step_keeps(rule, h, byte);
    }
    model::lemma_feed_removes(step, |h: Seq<u8>| is_partial_osc(h), data);
}

} // verus!
