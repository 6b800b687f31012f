//! Stripping fake cursors.
use std::borrow::Cow;
use unicode_segmentation::UnicodeSegmentation;
use vstd::prelude::*;

use crate::bytes::{BRACKET, ESC, LOWER_M};
use crate::filters::dropping::{self, CsiDropper, Dropped};
use crate::filters::ink_laws;
use crate::filters::printable::{self, printable_text_without_cursor_moves};
use crate::filters::sgr::Sgr;
use crate::filters::{chain, csi, model, sgr, Filter};

verus! {

/// The number of extended grapheme clusters of `text`.
pub uninterp spec fn grapheme_count(text: Seq<char>) -> usize;

/// `UnicodeSegmentation::graphemes(true)` and the number of its items: the
/// extended grapheme clusters of `text`, which depend on `text` alone. Which
/// characters make up a cluster is not stated.
#[verifier::external_body]
fn count_graphemes(text: &str) -> (count: usize)
    ensures
        count == grapheme_count(text@),
{
    text.graphemes(true).count()
}

/// The most bytes that are held back for a fake cursor. This bounds
/// speculative buffering while allowing a full ZWJ grapheme and cursor moves.
pub const MAX_PENDING_FAKE_CURSOR_LEN: usize = 64;

/// Whether `bytes` is an SGR that may open a fake cursor: it turns inverse on
/// and does not clear all attributes.
pub open spec fn is_opening(bytes: Seq<u8>) -> bool {
    &&& bytes.len() <= MAX_PENDING_FAKE_CURSOR_LEN
    &&& sgr::sgr_of(bytes) is Some
    &&& sgr::has_code(sgr::sgr_of(bytes)->0, 7)
    &&& !sgr::has_code(sgr::sgr_of(bytes)->0, 0)
}

/// Whether `bytes` is an SGR that closes a fake cursor: it turns inverse off
/// or clears all attributes.
pub open spec fn is_closing(bytes: Seq<u8>) -> bool {
    &&& sgr::sgr_of(bytes) is Some
    &&& sgr::has_code(sgr::sgr_of(bytes)->0, 27) || sgr::has_code(sgr::sgr_of(bytes)->0, 0)
}

/// The number of graphemes that a terminal prints of `inner`, where it prints
/// text.
pub open spec fn printed_graphemes(inner: Seq<u8>) -> Option<usize> {
    match printable::printable_text(inner) {
        Some(text) => Some(grapheme_count(text)),
        None => None,
    }
}

/// What is let out in place of a fake cursor, with `inner` between its SGRs:
/// the opening without inverse, `inner`, and the closing without inverse-off,
/// or without anything where it clears all attributes. `None` where `inner`
/// is not one grapheme.
pub open spec fn stripped(
    opening: Seq<sgr::ParamModel>,
    inner: Seq<u8>,
    closing: Seq<sgr::ParamModel>,
    graphemes: Option<usize>,
) -> Option<Seq<u8>> {
    if inner.len() > 0 && graphemes == Some(1usize) {
        Some(
            sgr::written(sgr::kept_params(opening, 7)) + inner + if sgr::has_code(closing, 0) {
                seq![]
            } else {
                sgr::written(sgr::kept_params(closing, 27))
            },
        )
    } else {
        None
    }
}

/// Bytes that turned out not to be a fake cursor are let out, but for an ESC
/// at their end, which may start the next sequence.
pub open spec fn flushed(seen: Seq<u8>) -> (Seq<u8>, Seq<u8>) {
    if seen.last() == ESC {
        (seq![ESC], seen.drop_last())
    } else {
        (seq![], seen)
    }
}

/// Whether `held` can be held back: nothing, the start of a CSI, or an
/// opening with what follows it.
pub open spec fn is_candidate(held: Seq<u8>) -> bool {
    ||| held.len() == 0
    ||| held.len() == 1 && held[0] == ESC
    ||| csi::is_open_csi(held)
    ||| {
        &&& csi::csi_len(held) is Some
        &&& is_opening(held.take(csi::csi_len(held)->0))
        &&& held.len() <= MAX_PENDING_FAKE_CURSOR_LEN
    }
}

/// What becomes of `seen`, which starts with an opening of `opening_len`
/// bytes.
pub open spec fn within_candidate(seen: Seq<u8>, opening_len: int) -> (Seq<u8>, Seq<u8>) {
    let start = csi::last_escape(seen);
    if start >= opening_len && is_closing(seen.skip(start)) {
        let inner = seen.subrange(opening_len, start);
        match stripped(
            sgr::sgr_of(seen.take(opening_len))->0,
            inner,
            sgr::sgr_of(seen.skip(start))->0,
            printed_graphemes(inner),
        ) {
            Some(out) => (seq![], out),
            None => flushed(seen),
        }
    } else if seen.len() > MAX_PENDING_FAKE_CURSOR_LEN {
        flushed(seen)
    } else {
        (seen, seq![])
    }
}

/// What becomes of `seen`, which starts with an ESC and is no longer than its
/// first sequence.
pub open spec fn within_sequence(seen: Seq<u8>) -> (Seq<u8>, Seq<u8>) {
    if csi::is_open_csi(seen) || is_opening(seen) {
        (seen, seq![])
    } else {
        flushed(seen)
    }
}

/// A sequence that turns inverse on is held back, with what follows it, until
/// an SGR that turns it off again shows whether it is a fake cursor. Everything
/// else is let out as it is.
pub open spec fn fake_cursor_step() -> model::ByteStep {
    |held: Seq<u8>, byte: u8|
        {
            let seen = held.push(byte);
            if held.len() == 0 {
                if byte == ESC {
                    (seen, seq![])
                } else {
                    (seq![], seen)
                }
            } else {
                match csi::csi_len(held) {
                    Some(opening_len) => within_candidate(seen, opening_len),
                    None => within_sequence(seen),
                }
            }
        }
}

/// Appends what is let out in place of a fake cursor, for `inner` that prints
/// the given number of graphemes. Says whether there was one.
pub fn strip_fake_cursor<'a>(
    opening: &Sgr<'a>,
    inner: &[u8],
    closing: &Sgr<'a>,
    graphemes: Option<usize>,
    out: &mut Vec<u8>,
) -> (found: bool)
    ensures
        match stripped(opening.params(), inner@, closing.params(), graphemes) {
            Some(bytes) => found && final(out)@ == old(out)@ + bytes,
            None => !found && final(out)@ == old(out)@,
        },
{
    if inner.len() == 0 || !matches!(graphemes, Some(1)) {
        return false;
    }
    opening.write_without(7, out);
    out.extend_from_slice(inner);
    if !closing.is_reset() {
        closing.write_without(27, out);
    }
    assert(out@ =~= old(out)@ + stripped(opening.params(), inner@, closing.params(), graphemes)->0);
    true
}

/// Counts the graphemes that a terminal prints of `inner`.
pub fn count_printed_graphemes(inner: &[u8]) -> (count: Option<usize>)
    ensures
        count == printed_graphemes(inner@),
{
    match printable_text_without_cursor_moves(inner) {
        Some(text) => Some(count_graphemes(text.as_str())),
        None => None,
    }
}

/// Whether `bytes` is an SGR that turns inverse on and does not clear all
/// attributes.
fn is_opening_sgr(bytes: &[u8]) -> (yes: bool)
    ensures
        bytes@.len() <= MAX_PENDING_FAKE_CURSOR_LEN ==> yes == is_opening(bytes@),
{
    match Sgr::parse(bytes) {
        Some(sgr) => sgr.turns_inverse_on() && !sgr.is_reset(),
        None => false,
    }
}

/// The bytes that are held back, and the length of the opening among them.
#[derive(Debug)]
struct Candidate {
    pending: Vec<u8>,
    opening_len: Option<usize>,
}

impl Candidate {
    spec fn well_formed(self) -> bool {
        &&& is_candidate(self.pending@)
        &&& match self.opening_len {
            Some(len) => csi::csi_len(self.pending@) == Some(len as int),
            None => csi::csi_len(self.pending@) is None,
        }
    }

    fn new() -> (candidate: Self)
        ensures
            candidate.well_formed(),
            candidate.pending@ == Seq::<u8>::empty(),
    {
        Candidate { pending: Vec::new(), opening_len: None }
    }

    fn flush_pending(&mut self, out: &mut Vec<u8>)
        requires
            old(self).pending@.len() > 0,
        ensures
            final(self).well_formed(),
            final(self).pending@ == flushed(old(self).pending@).0,
            final(out)@ == old(out)@ + flushed(old(self).pending@).1,
    {
        self.opening_len = None;
        let last: u8 = self.pending[self.pending.len() - 1];
        if last == ESC {
            self.pending.truncate(self.pending.len() - 1);
            assert(self.pending@ =~= old(self).pending@.drop_last());
        }
        out.append(&mut self.pending);
        if last == ESC {
            self.pending.push(ESC);
            assert(self.pending@ =~= seq![ESC]);
        }
    }

    /// Takes the next byte, with an opening held back.
    fn extend(&mut self, byte: u8, opening_len: usize, out: &mut Vec<u8>)
        requires
            old(self).well_formed(),
            old(self).opening_len == Some(opening_len),
        ensures
            final(self).well_formed(),
            ({
                let step = within_candidate(old(self).pending@.push(byte), opening_len as int);
                final(self).pending@ == step.0 && final(out)@ == old(out)@ + step.1
            }),
    {
        let ghost held = self.pending@;
        let ghost seen = held.push(byte);
        proof {
            csi::lemma_after_final(held, 2);
            csi::lemma_after_final_push(held, 2, byte);
            assert(seen.take(opening_len as int) =~= held.take(opening_len as int));
            csi::lemma_last_escape(seen);
            if csi::last_escape(seen) >= 0 {
                assert(seen.skip(csi::last_escape(seen)).last() == byte);
            }
            assert(out@ + Seq::<u8>::empty() =~= out@);
        }
        self.pending.push(byte);
        let closing_start: Option<usize> = if byte == LOWER_M {
            csi::find_last_escape(&self.pending)
        } else {
            None
        };
        if let Some(start) = closing_start {
            if start >= opening_len {
                let closing = Sgr::parse(&self.pending.as_slice()[start..self.pending.len()]);
                assert(self.pending@.subrange(start as int, self.pending@.len() as int)
                    =~= seen.skip(start as int));
                if let Some(closing) = closing {
                    if closing.is_reset() || closing.turns_inverse_off() {
                        let inner = &self.pending.as_slice()[opening_len..start];
                        let graphemes = count_printed_graphemes(inner);
                        let opening = Sgr::parse(&self.pending.as_slice()[0..opening_len]);
                        assert(self.pending@.subrange(0, opening_len as int) =~= seen.take(
                            opening_len as int,
                        ));
                        let found = match opening {
                            Some(opening) => strip_fake_cursor(
                                &opening,
                                inner,
                                &closing,
                                graphemes,
                                out,
                            ),
                            None => false,
                        };
                        if found {
                            self.pending.clear();
                            self.opening_len = None;
                        } else {
                            self.flush_pending(out);
                        }
                        return;
                    }
                }
            }
        }
        if self.pending.len() > MAX_PENDING_FAKE_CURSOR_LEN {
            self.flush_pending(out);
        }
    }

    /// Takes the next byte of a sequence that may become an opening.
    fn begin(&mut self, byte: u8, out: &mut Vec<u8>)
        requires
            old(self).well_formed(),
            old(self).opening_len is None,
            old(self).pending@.len() > 0,
        ensures
            final(self).well_formed(),
            ({
                let step = within_sequence(old(self).pending@.push(byte));
                final(self).pending@ == step.0 && final(out)@ == old(out)@ + step.1
            }),
    {
        let ghost held = self.pending@;
        let ghost seen = held.push(byte);
        proof {
            if held.len() >= 2 {
                csi::lemma_after_final_push(held, 2, byte);
            }
            csi::lemma_after_final(seen, 2);
            assert(seen.take(seen.len() as int) =~= seen);
            assert(out@ + Seq::<u8>::empty() =~= out@);
        }
        self.pending.push(byte);
        let open: bool = self.pending[1] == BRACKET && (self.pending.len() == 2 || byte < 0x40
            || byte > 0x7e);
        if !open {
            if self.pending.len() <= MAX_PENDING_FAKE_CURSOR_LEN && is_opening_sgr(&self.pending) {
                self.opening_len = Some(self.pending.len());
            } else {
                self.flush_pending(out);
            }
        }
    }

    fn filter<'a>(&mut self, data: &'a [u8]) -> (out: Cow<'a, [u8]>)
        requires
            old(self).well_formed(),
        ensures
            final(self).well_formed(),
            (final(self).pending@, out@) == model::feed(fake_cursor_step(), old(self).pending@, data@),
            out is Borrowed <==> old(self).pending@.len() == 0 && !data@.contains(ESC),
    {
        let ghost step = fake_cursor_step();
        if self.pending.len() == 0 && memchr::memchr(ESC, data).is_none() {
            proof {
                assert(self.pending@ =~= seq![]);
                ink_laws::plain_text_passes(data@);
            }
            return Cow::Borrowed(data);
        }
        let mut out: Vec<u8> = Vec::with_capacity(data.len());
        let mut i: usize = 0;
        while i < data.len()
            invariant
                i <= data@.len(),
                step == fake_cursor_step(),
                self.well_formed(),
                (self.pending@, out@) == model::feed(
                    step,
                    old(self).pending@,
                    data@.take(i as int),
                ),
            decreases data@.len() - i,
        {
            let byte: u8 = data[i];
            let ghost held = self.pending@;
            let ghost sent = out@;
            proof {
                model::lemma_feed_push(step, old(self).pending@, data@.take(i as int), byte);
                assert(data@.take(i as int).push(byte) =~= data@.take(i + 1));
            }
            if self.pending.len() == 0 {
                if byte == ESC {
                    self.pending.push(byte);
                } else {
                    out.push(byte);
                }
                assert(self.pending@ =~= step(held, byte).0);
                assert(out@ =~= sent + step(held, byte).1);
            } else {
                match self.opening_len {
                    Some(opening_len) => self.extend(byte, opening_len, &mut out),
                    None => self.begin(byte, &mut out),
                }
            }
            i += 1;
        }
        assert(data@.take(i as int) =~= data@);
        Cow::Owned(out)
    }
}

/// What is done to the output: fake cursors are stripped, and then, of what
/// that lets out, the sequences that hide the cursor are dropped.
pub open spec fn ink_stages(candidate: Seq<u8>, hides: Seq<u8>) -> Seq<model::Behaviour> {
    chain::pair(
        fake_cursor_step(),
        candidate,
        dropping::drop_step(Dropped::CursorHide),
        hides,
    )
}

/// What the filter holds back after a call, and what it returns.
pub open spec fn ink_answer(candidate: Seq<u8>, hides: Seq<u8>, call: model::Call) -> (
    Seq<u8>,
    Seq<u8>,
    Seq<u8>,
) {
    chain::answer_pair(
        fake_cursor_step(),
        candidate,
        dropping::drop_step(Dropped::CursorHide),
        hides,
        call,
    )
}

/// Strips Ink-style fake cursor sequences and cursor-hide directives.
///
/// Ink wraps a single grapheme in inverse SGRs.  Keep the original bytes
/// until the closing SGR confirms that the candidate is a fake cursor.
#[derive(Debug)]
pub struct InkFakeCursorFilter {
    candidate: Candidate,
    hides: CsiDropper,
}

impl InkFakeCursorFilter {
    /// The bytes that are held back because they may be a fake cursor.
    pub closed spec fn candidate(self) -> Seq<u8> {
        self.candidate.pending@
    }

    /// The bytes in front of them that are held back because they may hide the
    /// cursor.
    pub closed spec fn hides(self) -> Seq<u8> {
        self.hides.held()
    }

    #[verifier::type_invariant]
    closed spec fn well_formed(self) -> bool {
        &&& self.candidate.well_formed()
        &&& self.hides.well_formed()
        &&& self.hides.kind() == Dropped::CursorHide
    }

    /// Creates an empty filter.
    pub fn new() -> (filter: Self)
        ensures
            filter.candidate() == Seq::<u8>::empty(),
            filter.hides() == Seq::<u8>::empty(),
    {
        InkFakeCursorFilter {
            candidate: Candidate::new(),
            hides: CsiDropper::new(Dropped::CursorHide),
        }
    }
}

impl Default for InkFakeCursorFilter {
    fn default() -> (filter: Self)
        ensures
            filter.candidate() == Seq::<u8>::empty(),
            filter.hides() == Seq::<u8>::empty(),
    {
        InkFakeCursorFilter::new()
    }
}

impl Filter for InkFakeCursorFilter {
    open spec fn reply(&self, calls: Seq<model::Call>) -> Seq<u8> {
        chain::chain_reply(ink_stages(self.candidate(), self.hides()), calls)
    }

    open spec fn borrows(&self, data: Seq<u8>) -> bool {
        self.candidate().len() == 0 && self.hides().len() == 0 && !data.contains(ESC)
    }

    fn filter<'a>(&mut self, data: &'a [u8]) -> (out: Cow<'a, [u8]>)
        ensures
            (final(self).candidate(), final(self).hides(), out@) == ink_answer(
                old(self).candidate(),
                old(self).hides(),
                model::Call::Chunk(data@),
            ),
    {
        proof {
            use_type_invariant(&*self);
            if self.candidate().len() == 0 && !data@.contains(ESC) {
                assert(self.candidate() =~= seq![]);
                ink_laws::plain_text_passes(data@);
            }
        }
        let mut candidate = Candidate::new();
        let mut hides = CsiDropper::new(Dropped::CursorHide);
        std::mem::swap(&mut self.candidate, &mut candidate);
        std::mem::swap(&mut self.hides, &mut hides);
        let out = match candidate.filter(data) {
            Cow::Borrowed(bytes) => hides.filter(bytes),
            Cow::Owned(bytes) => match hides.filter(&bytes) {
                Cow::Borrowed(bytes) => Cow::Owned(vstd::slice::slice_to_vec(bytes)),
                Cow::Owned(bytes) => Cow::Owned(bytes),
            },
        };
        self.candidate = candidate;
        self.hides = hides;
        proof {
            chain::lemma_pair_answers(
                fake_cursor_step(),
                old(self).candidate(),
                self.candidate(),
                dropping::drop_step(Dropped::CursorHide),
                old(self).hides(),
                self.hides(),
                model::Call::Chunk(data@),
            );
        }
        out
    }

    fn finish(&mut self) -> (tail: Vec<u8>)
        ensures
            (final(self).candidate(), final(self).hides(), tail@) == ink_answer(
                old(self).candidate(),
                old(self).hides(),
                model::Call::Finish,
            ),
    {
        proof {
            use_type_invariant(&*self);
        }
        let mut candidate = Candidate::new();
        let mut hides = CsiDropper::new(Dropped::CursorHide);
        std::mem::swap(&mut self.candidate, &mut candidate);
        std::mem::swap(&mut self.hides, &mut hides);
        let mut tail: Vec<u8> = match hides.filter(&candidate.pending) {
            Cow::Borrowed(bytes) => vstd::slice::slice_to_vec(bytes),
            Cow::Owned(bytes) => bytes,
        };
        let mut rest = hides.finish();
        tail.append(&mut rest);
        proof {
            chain::lemma_pair_answers(
                fake_cursor_step(),
                old(self).candidate(),
                self.candidate(),
                dropping::drop_step(Dropped::CursorHide),
                old(self).hides(),
                self.hides(),
                model::Call::Finish,
            );
        }
        tail
    }
}

} // verus!
