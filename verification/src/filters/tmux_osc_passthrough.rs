//! Relaying OSCs through tmux.
use std::borrow::Cow;
use vstd::prelude::*;

use crate::bytes::{BACKSLASH, ESC};
use crate::filters::osc::{self, OscRule, OscScanner};
use crate::filters::{model, Filter};

verus! {

/// `ESC P tmux ;`, which opens a tmux passthrough.
pub const TMUX_START: [u8; 7] = [0x1b, 0x50, 0x74, 0x6d, 0x75, 0x78, 0x3b];

/// `ESC \`, which closes it.
pub const TMUX_END: [u8; 2] = [0x1b, 0x5c];

/// `payload` with every ESC written twice.
pub open spec fn doubled(payload: Seq<u8>) -> Seq<u8>
    decreases payload.len(),
{
    if payload.len() == 0 {
        seq![]
    } else if payload.last() == ESC {
        doubled(payload.drop_last()) + seq![ESC, ESC]
    } else {
        doubled(payload.drop_last()) + seq![payload.last()]
    }
}

/// `sequence` in a tmux passthrough.
pub open spec fn tmux_wrapped(sequence: Seq<u8>) -> Seq<u8> {
    TMUX_START@ + doubled(sequence) + TMUX_END@
}

/// What tmux hands on of the bytes behind `ESC P tmux ;`: `ESC ESC` stands
/// for one ESC, and `ESC \` ends the passthrough. `None` where it does not
/// end with the last byte.
pub open spec fn tmux_payload(bytes: Seq<u8>) -> Option<Seq<u8>>
    decreases bytes.len(),
{
    if bytes.len() == 0 {
        None
    } else if bytes[0] != ESC {
        match tmux_payload(bytes.skip(1)) {
            Some(rest) => Some(seq![bytes[0]] + rest),
            None => None,
        }
    } else if bytes.len() >= 2 && bytes[1] == ESC {
        match tmux_payload(bytes.skip(2)) {
            Some(rest) => Some(seq![ESC] + rest),
            None => None,
        }
    } else if bytes.len() == 2 && bytes[1] == BACKSLASH {
        Some(seq![])
    } else {
        None
    }
}

proof fn lemma_doubled_first(payload: Seq<u8>)
    requires
        payload.len() > 0,
    ensures
        doubled(payload) == if payload[0] == ESC {
            seq![ESC, ESC]
        } else {
            seq![payload[0]]
        } + doubled(payload.skip(1)),
    decreases payload.len(),
{
    let rest = payload.skip(1);
    if payload.len() == 1 {
        assert(payload.drop_last() =~= seq![]);
        assert(rest =~= seq![]);
        assert(doubled(payload) =~= if payload[0] == ESC {
            seq![ESC, ESC]
        } else {
            seq![payload[0]]
        } + doubled(rest));
    } else {
        lemma_doubled_first(payload.drop_last());
        assert(payload.drop_last().skip(1) =~= rest.drop_last());
        assert(rest.last() == payload.last());
        assert(doubled(payload) =~= if payload[0] == ESC {
            seq![ESC, ESC]
        } else {
            seq![payload[0]]
        } + doubled(rest));
    }
}

proof fn lemma_payload_of_doubled(payload: Seq<u8>)
    ensures
        tmux_payload(doubled(payload) + seq![ESC, BACKSLASH]) == Some(payload),
    decreases payload.len(),
{
    let bytes = doubled(payload) + seq![ESC, BACKSLASH];
    if payload.len() == 0 {
        assert(payload =~= seq![]);
    } else {
        let rest = payload.skip(1);
        lemma_doubled_first(payload);
        lemma_payload_of_doubled(rest);
        let tail = doubled(rest) + seq![ESC, BACKSLASH];
        if payload[0] == ESC {
            assert(bytes =~= seq![ESC, ESC] + tail);
            assert(bytes.skip(2) =~= tail);
        } else {
            assert(bytes =~= seq![payload[0]] + tail);
            assert(bytes.skip(1) =~= tail);
        }
        assert(seq![payload[0]] + rest =~= payload);
    }
}

/// tmux hands on exactly the sequence that was wrapped, whatever its bytes.
pub proof fn tmux_hands_on_the_wrapped_sequence(sequence: Seq<u8>)
    ensures
        TMUX_START@.is_prefix_of(tmux_wrapped(sequence)),
        tmux_payload(tmux_wrapped(sequence).skip(TMUX_START@.len() as int)) == Some(sequence),
{
    lemma_payload_of_doubled(sequence);
    assert(TMUX_END@ =~= seq![ESC, BACKSLASH]);
    let wrapped = tmux_wrapped(sequence);
    assert(TMUX_START@ =~= wrapped.subrange(0, TMUX_START@.len() as int));
    assert(wrapped.skip(TMUX_START@.len() as int) =~= doubled(sequence) + seq![ESC, BACKSLASH]);
}

/// Wraps the OSCs whose codes are listed and keeps the others.
#[derive(Debug)]
pub struct WrapListed {
    pub codes: Vec<u16>,
}

impl OscRule for WrapListed {
    open spec fn rendering(&self, code: Option<u16>, sequence: Seq<u8>) -> Seq<u8> {
        if code is Some && self.codes@.contains(code->0) {
            tmux_wrapped(sequence)
        } else {
            sequence
        }
    }

    fn render(&self, code: Option<u16>, sequence: &[u8], out: &mut Vec<u8>) {
        let listed: bool = match code {
            Some(code) => contains_code(&self.codes, code),
            None => false,
        };
        if listed {
            tmux_wrap_into(sequence, out);
        } else {
            out.extend_from_slice(sequence);
        }
    }
}

/// Whether `code` is one of `codes`.
pub fn contains_code(codes: &[u16], code: u16) -> (yes: bool)
    ensures
        yes == codes@.contains(code),
{
    let mut i: usize = 0;
    while i < codes.len()
        invariant
            i <= codes@.len(),
            forall|j: int| 0 <= j < i ==> codes@[j] != code,
        decreases codes@.len() - i,
    {
        if codes[i] == code {
            return true;
        }
        i += 1;
    }
    false
}

/// Wraps selected OSCs in a tmux DCS passthrough.  Requires
/// allow-passthrough on in tmux (3.3+).
#[derive(Debug)]
pub struct TmuxOscPassthroughFilter {
    rule: WrapListed,
    scanner: OscScanner,
}

impl TmuxOscPassthroughFilter {
    /// The codes of the OSCs to wrap, and how they are wrapped.
    pub closed spec fn rule(self) -> WrapListed {
        self.rule
    }

    /// The bytes that are held back.
    pub closed spec fn held(self) -> Seq<u8> {
        self.scanner.held()
    }

    #[verifier::type_invariant]
    closed spec fn well_formed(self) -> bool {
        self.scanner.well_formed()
    }

    /// Creates a filter wrapping the given OSC codes.
    pub fn new(codes: Vec<u16>) -> (filter: Self)
        ensures
            filter.rule().codes == codes,
            filter.held() == Seq::<u8>::empty(),
    {
        TmuxOscPassthroughFilter { rule: WrapListed { codes }, scanner: OscScanner::new() }
    }
}

impl Default for TmuxOscPassthroughFilter {
    fn default() -> (filter: Self)
        ensures
            filter.rule().codes@ == Seq::<u16>::empty(),
            filter.held() == Seq::<u8>::empty(),
    {
        TmuxOscPassthroughFilter::new(Vec::new())
    }
}

impl Filter for TmuxOscPassthroughFilter {
    open spec fn reply(&self, calls: Seq<model::Call>) -> Seq<u8> {
        model::answers(osc::osc_step(self.rule()), self.held(), calls).1
    }

    open spec fn borrows(&self, data: Seq<u8>) -> bool {
        self.held().len() == 0 && !data.contains(ESC)
    }

    fn filter<'a>(&mut self, data: &'a [u8]) -> (out: Cow<'a, [u8]>)
        ensures
            final(self).rule() == old(self).rule(),
            (final(self).held(), out@) == model::feed(
                osc::osc_step(old(self).rule()),
                old(self).held(),
                data@,
            ),
    {
        proof {
            use_type_invariant(&*self);
            model::lemma_answers(osc::osc_step(self.rule()), self.held(), model::Call::Chunk(data@));
        }
        let mut scanner = OscScanner::new();
        std::mem::swap(&mut self.scanner, &mut scanner);
        let out = scanner.filter(data, &self.rule);
        self.scanner = scanner;
        out
    }

    fn finish(&mut self) -> (tail: Vec<u8>)
        ensures
            final(self).rule() == old(self).rule(),
            tail@ == old(self).held(),
            final(self).held() == Seq::<u8>::empty(),
    {
        proof {
            model::lemma_answers(osc::osc_step(self.rule()), self.held(), model::Call::Finish);
        }
        let mut scanner = OscScanner::new();
        std::mem::swap(&mut self.scanner, &mut scanner);
        scanner.finish()
    }
}

/// Wraps a complete escape sequence in a tmux DCS passthrough,
/// doubling every ESC in the payload as tmux requires.
pub fn tmux_wrap(seq: &[u8]) -> (out: Vec<u8>)
    ensures
        out@ == tmux_wrapped(seq@),
{
    let mut out: Vec<u8> = Vec::new();
    tmux_wrap_into(seq, &mut out);
    assert(out@ =~= tmux_wrapped(seq@));
    out
}

fn tmux_wrap_into(seq: &[u8], out: &mut Vec<u8>)
    ensures
        final(out)@ == old(out)@ + tmux_wrapped(seq@),
{
    out.extend_from_slice(&TMUX_START);
    let mut i: usize = 0;
    while i < seq.len()
        invariant
            i <= seq@.len(),
            out@ == old(out)@ + TMUX_START@ + doubled(seq@.take(i as int)),
        decreases seq@.len() - i,
    {
        let ghost before = out@;
        let byte: u8 = seq[i];
        if byte == ESC {
            out.push(ESC);
        }
        out.push(byte);
        proof {
            assert(seq@.take(i + 1).drop_last() =~= seq@.take(i as int));
            assert(out@ =~= old(out)@ + TMUX_START@ + doubled(seq@.take(i + 1)));
        }
        i += 1;
    }
    assert(seq@.take(i as int) =~= seq@);
    out.extend_from_slice(&TMUX_END);
    assert(out@ =~= old(out)@ + tmux_wrapped(seq@));
}

/// What is let out of a unit of a stream: an OSC whose code is listed is
/// wrapped, and ESCs in front of it stay in front.
pub open spec fn unit_output(rule: WrapListed, unit: Seq<u8>) -> Seq<u8> {
    let osc = osc::sequence_of(unit);
    if osc::is_osc(osc) && osc::osc_code(osc) is Some && rule.codes@.contains(
        osc::osc_code(osc)->0,
    ) {
        osc::lone_escapes(unit) + tmux_wrapped(osc)
    } else {
        unit
    }
}

/// Of every stream exactly the OSCs whose codes are listed are wrapped, however
/// the stream is cut; everything else keeps its bytes and its order.
pub proof fn only_listed_oscs_are_wrapped(rule: WrapListed, data: Seq<u8>)
    ensures
        exists|units: Seq<Seq<u8>>, tail: Seq<u8>|
            {
                &&& #[trigger] osc::splits_into(rule, data, units, tail)
                &&& model::feed(osc::osc_step(rule), seq![], data) == (
                    tail,
                    model::concat(units.map_values(|unit: Seq<u8>| unit_output(rule, unit))),
                )
            },
{
    assert(osc::never_drops(rule)) by {
        assert forall|osc: Seq<u8>| osc::is_osc(osc) implies (#[trigger] rule.rendering(
            osc::osc_code(osc),
            osc,
        )).len() > 0 by {}
    }
    osc::every_stream_splits(rule, data);
    let (units, tail) = choose|units: Seq<Seq<u8>>, tail: Seq<u8>|
        osc::splits_into(rule, data, units, tail);
    osc::only_oscs_are_rendered(rule, data, units, tail);
    let rendered = units.map_values(|unit: Seq<u8>| osc::unit_output(rule, unit));
    let expected = units.map_values(|unit: Seq<u8>| unit_output(rule, unit));
    assert forall|i: int| 0 <= i < units.len() implies rendered[i] == expected[i] by {
        osc::lemma_unit_parts(rule, units[i]);
        assert(osc::is_unit(rule, units[i]));
    }
    assert(rendered =~= expected);
}

} // verus!
