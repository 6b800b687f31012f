//! What holds of the fake cursor filter.
use vstd::prelude::*;

use crate::bytes::{self, ESC, LOWER_M};
use crate::filters::dropping::{self, Dropped};
use crate::filters::ink_fake_cursor::{self as ink, MAX_PENDING_FAKE_CURSOR_LEN};
use crate::filters::sgr_laws::{self, Attribute};
use crate::filters::{chain, csi, model, printable, sgr};

verus! {

proof fn lemma_flushed(seen: Seq<u8>)
    requires
        seen.len() > 0,
    ensures
        ink::is_candidate(ink::flushed(seen).0),
        ink::flushed(seen).1 + ink::flushed(seen).0 == seen,
{
    assert(ink::flushed(seen).1 + ink::flushed(seen).0 =~= seen);
}

proof fn lemma_within_candidate(seen: Seq<u8>, opening_len: int)
    requires
        csi::csi_len(seen) == Some(opening_len),
        ink::is_opening(seen.take(opening_len)),
    ensures
        ink::is_candidate(ink::within_candidate(seen, opening_len).0),
        model::is_subsequence(
            ink::within_candidate(seen, opening_len).1 + ink::within_candidate(seen, opening_len).0,
            seen,
        ),
{
    let empty = Seq::<u8>::empty();
    let start = csi::last_escape(seen);
    lemma_flushed(seen);
    model::lemma_subsequence_of_itself(seen);
    assert(empty + seen =~= seen);
    csi::lemma_after_final(seen, 2);
    csi::lemma_last_escape(seen);
    if start >= opening_len && ink::is_closing(seen.skip(start)) {
        let opening = seen.take(opening_len);
        let inner = seen.subrange(opening_len, start);
        let closing = seen.skip(start);
        assert(seen =~= opening + inner + closing);
        sgr::writing_without_removes(opening, 7);
        sgr::writing_without_removes(closing, 27);
        model::lemma_subsequence_of_itself(inner);
        let kept_opening = sgr::written(sgr::kept_params(sgr::sgr_of(opening)->0, 7));
        let kept_closing = if sgr::has_code(sgr::sgr_of(closing)->0, 0) {
            empty
        } else {
            sgr::written(sgr::kept_params(sgr::sgr_of(closing)->0, 27))
        };
        let out = kept_opening + inner + kept_closing;
        model::lemma_subsequence_concat(kept_opening, opening, inner, inner);
        model::lemma_subsequence_concat(
            kept_opening + inner,
            opening + inner,
            kept_closing,
            closing,
        );
        assert(out + empty =~= out);
    }
}

proof fn lemma_within_sequence(seen: Seq<u8>)
    requires
        seen.len() > 0,
    ensures
        ink::is_candidate(ink::within_sequence(seen).0),
        model::is_subsequence(ink::within_sequence(seen).1 + ink::within_sequence(seen).0, seen),
{
    let empty = Seq::<u8>::empty();
    lemma_flushed(seen);
    model::lemma_subsequence_of_itself(seen);
    assert(empty + seen =~= seen);
    assert(empty + empty =~= empty);
    if ink::is_opening(seen) {
        assert(seen.take(seen.len() as int) =~= seen);
        sgr::reading_keeps_every_byte(seen);
    }
}

/// What every step keeps of the bytes held back, and what it does to them.
proof fn lemma_ink_step(held: Seq<u8>, byte: u8)
    requires
        ink::is_candidate(held),
    ensures
        ink::is_candidate(ink::fake_cursor_step()(held, byte).0),
        model::is_subsequence(
            ink::fake_cursor_step()(held, byte).1 + ink::fake_cursor_step()(held, byte).0,
            held.push(byte),
        ),
{
    let seen = held.push(byte);
    if held.len() == 0 {
        let empty = Seq::<u8>::empty();
        model::lemma_subsequence_of_itself(seen);
        assert(empty + seen =~= seen);
        assert(seen + empty =~= seen);
    } else if csi::csi_len(held) is Some {
        let opening_len = csi::csi_len(held)->0;
        csi::lemma_after_final(held, 2);
        csi::lemma_after_final_push(held, 2, byte);
        assert(seen.take(opening_len) =~= held.take(opening_len));
        lemma_within_candidate(seen, opening_len);
    } else {
        lemma_within_sequence(seen);
    }
}

/// The stripping of fake cursors never adds or reorders bytes.
proof fn lemma_stripping_removes(data: Seq<u8>)
    ensures
        ({
            let (held, out) = model::feed(ink::fake_cursor_step(), seq![], data);
            model::is_subsequence(out + held, data)
        }),
{
    let step = ink::fake_cursor_step();
    assert forall|h: Seq<u8>, byte: u8| ink::is_candidate(h) implies ink::is_candidate(
        (#[trigger] step(h, byte)).0,
    ) && model::is_subsequence(step(h, byte).1 + step(h, byte).0, h.push(byte)) by {
        lemma_ink_step(h, byte);
    }
    model::lemma_feed_removes(step, |h: Seq<u8>| ink::is_candidate(h), data);
}

/// The filter never adds or reorders bytes: what it lets out, and what it then
/// holds back, is a subsequence of what it was given.
pub proof fn fake_cursor_filter_only_removes(data: Seq<u8>)
    ensures
        ({
            let (candidate, hides, out) = ink::ink_answer(
                seq![],
                seq![],
                model::Call::Chunk(data),
            );
            model::is_subsequence(out + hides + candidate, data)
        }),
{
    let (candidate, between) = model::feed(ink::fake_cursor_step(), seq![], data);
    let (_, hides, out) = ink::ink_answer(seq![], seq![], model::Call::Chunk(data));
    lemma_stripping_removes(data);
    dropping::exactly_these_are_dropped(Dropped::CursorHide, between);
    dropping::dropping_removes(Dropped::CursorHide, between);
    model::lemma_subsequence_of_itself(candidate);
    model::lemma_subsequence_concat(out + hides, between, candidate, candidate);
    model::lemma_subsequence_of_subsequence(out + hides + candidate, between + candidate, data);
}

/// Speculative buffering is bounded: once a complete sequence is held back, no
/// more bytes are than the limit allows.
pub proof fn fake_cursor_buffering_is_bounded(data: Seq<u8>)
    ensures
        ({
            let held = model::feed(ink::fake_cursor_step(), seq![], data).0;
            csi::csi_len(held) is Some ==> held.len() <= MAX_PENDING_FAKE_CURSOR_LEN
        }),
{
    assert forall|h: Seq<u8>, byte: u8| ink::is_candidate(h) implies ink::is_candidate(
        (#[trigger] ink::fake_cursor_step()(h, byte)).0,
    ) by {
        lemma_ink_step(h, byte);
    }
    model::lemma_feed_keeps(
        ink::fake_cursor_step(),
        |h: Seq<u8>| ink::is_candidate(h),
        seq![],
        data,
    );
}

/// Whether `seen`, which starts with an opening of `opening_len` bytes, ends
/// with an SGR that closes it.
pub open spec fn closes(seen: Seq<u8>, opening_len: int) -> bool {
    csi::last_escape(seen) >= opening_len && ink::is_closing(seen.skip(csi::last_escape(seen)))
}

/// An opening, and what follows it as long as nothing closes it, is held back
/// up to the limit.
proof fn lemma_candidate_is_held(seen: Seq<u8>, opening_len: int, len: int)
    requires
        0 < opening_len <= len <= seen.len(),
        len <= MAX_PENDING_FAKE_CURSOR_LEN,
        ink::is_opening(seen.take(opening_len)),
        forall|n: int| opening_len < n <= len ==> !closes(#[trigger] seen.take(n), opening_len),
    ensures
        csi::csi_len(seen.take(len)) == Some(opening_len),
        model::feed(ink::fake_cursor_step(), seq![], seen.take(len)) == (
            seen.take(len),
            Seq::<u8>::empty(),
        ),
    decreases len,
{
    let step = ink::fake_cursor_step();
    let taken = seen.take(len);
    let empty = Seq::<u8>::empty();
    assert(empty + empty =~= empty);
    let opening = seen.take(opening_len);
    sgr::reading_keeps_every_byte(opening);
    if len == opening_len {
        csi::lemma_after_final(opening, 2);
        assert forall|i: int| 0 <= i < len implies step(opening.take(i), #[trigger] opening[i])
            == (opening.take(i + 1), empty) by {
            let held = opening.take(i);
            let next = opening.take(i + 1);
            assert(held.push(opening[i]) =~= next);
            if i > 1 {
                csi::lemma_prefix_is_open(opening, i);
            }
            if 0 < i < len - 1 {
                csi::lemma_prefix_is_open(opening, i + 1);
            } else if i == len - 1 {
                assert(next =~= opening);
            }
        }
        model::lemma_feed_holds(step, opening, len);
        assert(opening.take(len) =~= opening);
    } else {
        lemma_candidate_is_held(seen, opening_len, len - 1);
        let before = seen.take(len - 1);
        let byte = seen[len - 1];
        assert(taken =~= before.push(byte));
        assert(taken.drop_last() =~= before);
        csi::lemma_after_final_push(before, 2, byte);
        assert(!closes(taken, opening_len));
    }
}

/// What the stripping of fake cursors makes of a candidate that is closed.
pub open spec fn settled(seen: Seq<u8>, opening_len: int) -> Seq<u8> {
    let start = csi::last_escape(seen);
    let inner = seen.subrange(opening_len, start);
    match ink::stripped(
        sgr::sgr_of(seen.take(opening_len))->0,
        inner,
        sgr::sgr_of(seen.skip(start))->0,
        ink::printed_graphemes(inner),
    ) {
        Some(out) => out,
        None => seen,
    }
}

proof fn lemma_closing_settles(seen: Seq<u8>, opening_len: int)
    requires
        0 < opening_len < seen.len() <= MAX_PENDING_FAKE_CURSOR_LEN + 1,
        ink::is_opening(seen.take(opening_len)),
        closes(seen, opening_len),
        forall|n: int|
            opening_len < n < seen.len() ==> !closes(#[trigger] seen.take(n), opening_len),
    ensures
        model::feed(ink::fake_cursor_step(), seq![], seen) == (
            Seq::<u8>::empty(),
            settled(seen, opening_len),
        ),
{
    let len = seen.len() - 1;
    let empty = Seq::<u8>::empty();
    lemma_candidate_is_held(seen, opening_len, len);
    assert(seen.take(len) =~= seen.drop_last());
    assert(seen =~= seen.take(len).push(seen.last()));
    csi::lemma_last_escape(seen);
    assert(seen.skip(csi::last_escape(seen)).last() == seen.last());
    let out = ink::within_candidate(seen, opening_len).1;
    assert(empty + out =~= out);
}

/// A fake cursor loses its inverse, and any other inverse text keeps its
/// bytes: when the first SGR that turns inverse off or clears all attributes
/// ends within the limit, the bytes from the opening on are let out stripped
/// where exactly one grapheme is printed between the two, and unchanged where
/// not. Either way without the sequences among them that hide the cursor.
pub proof fn closing_settles_a_candidate(seen: Seq<u8>, opening_len: int)
    requires
        0 < opening_len < seen.len() <= MAX_PENDING_FAKE_CURSOR_LEN + 1,
        ink::is_opening(seen.take(opening_len)),
        closes(seen, opening_len),
        forall|n: int|
            opening_len < n < seen.len() ==> !closes(#[trigger] seen.take(n), opening_len),
    ensures
        ({
            let (candidate, hides, out) = ink::ink_answer(
                seq![],
                seq![],
                model::Call::Chunk(seen),
            );
            &&& candidate == Seq::<u8>::empty()
            &&& out + hides == dropping::without(
                Dropped::CursorHide,
                settled(seen, opening_len),
            )
        }),
{
    lemma_closing_settles(seen, opening_len);
    dropping::exactly_these_are_dropped(Dropped::CursorHide, settled(seen, opening_len));
}

/// Inverse text that nothing closes within the limit keeps its bytes, but for
/// the sequences among them that hide the cursor. An ESC at its end, which may
/// start the next sequence, is held back.
pub proof fn long_candidates_keep_their_bytes(seen: Seq<u8>, opening_len: int)
    requires
        0 < opening_len < seen.len() == MAX_PENDING_FAKE_CURSOR_LEN + 1,
        ink::is_opening(seen.take(opening_len)),
        forall|n: int|
            opening_len < n <= seen.len() ==> !closes(#[trigger] seen.take(n), opening_len),
    ensures
        ({
            let (candidate, hides, out) = ink::ink_answer(
                seq![],
                seq![],
                model::Call::Chunk(seen),
            );
            let (held, kept) = ink::flushed(seen);
            &&& candidate == held
            &&& kept + held == seen
            &&& out + hides == dropping::without(Dropped::CursorHide, kept)
        }),
{
    let len = seen.len() - 1;
    lemma_candidate_is_held(seen, opening_len, len);
    assert(seen.take(len) =~= seen.drop_last());
    assert(seen =~= seen.take(len).push(seen.last()));
    assert(seen.take(seen.len() as int) =~= seen);
    assert(!closes(seen, opening_len));
    lemma_flushed(seen);
    let kept = ink::flushed(seen).1;
    assert(Seq::<u8>::empty() + kept =~= kept);
    dropping::exactly_these_are_dropped(Dropped::CursorHide, kept);
}

/// `ESC [ 7 m`, which turns inverse on.
pub const INVERSE_ON: [u8; 4] = [0x1b, 0x5b, 0x37, 0x6d];

/// `ESC [ 2 7 m`, which turns inverse off.
pub const INVERSE_OFF: [u8; 5] = [0x1b, 0x5b, 0x32, 0x37, 0x6d];

/// The two plain SGRs of a fake cursor.
proof fn lemma_inverse_sgrs()
    ensures
        sgr::sgr_of(INVERSE_ON@) == Some(
            seq![sgr::ParamModel { code: Some(7u16), raw: seq![0x37u8] }],
        ),
        sgr::sgr_of(INVERSE_OFF@) == Some(
            seq![sgr::ParamModel { code: Some(27u16), raw: seq![0x32u8, 0x37u8] }],
        ),
{
    let seven = seq![0x37u8];
    let off = seq![0x32u8, 0x37u8];
    reveal_with_fuel(bytes::decimal, 3);
    assert(seven.drop_last() =~= seq![]);
    assert(off.drop_last() =~= seq![0x32u8]);
    assert(off.drop_last().drop_last() =~= seq![]);
    assert(bytes::decimal(seven) == 7);
    assert(bytes::decimal(off) == 27);
    sgr::lemma_single_param(seven);
    sgr::lemma_single_param(off);
    assert(INVERSE_ON@.subrange(2, 3) =~= seven);
    assert(INVERSE_OFF@.subrange(2, 4) =~= off);
}

proof fn lemma_inverse_graphemes(inner: Seq<u8>)
    requires
        printable::is_plain_text(inner),
        0 < inner.len(),
        INVERSE_ON@.len() + inner.len() + INVERSE_OFF@.len() <= MAX_PENDING_FAKE_CURSOR_LEN + 1,
    ensures
        model::feed(ink::fake_cursor_step(), seq![], INVERSE_ON@ + inner + INVERSE_OFF@) == (
            Seq::<u8>::empty(),
            if ink::grapheme_count(vstd::utf8::decode_utf8(inner)) == 1 {
                inner
            } else {
                INVERSE_ON@ + inner + INVERSE_OFF@
            },
        ),
{
    let seen = INVERSE_ON@ + inner + INVERSE_OFF@;
    let opening_len = 4int;
    let start = 4 + inner.len();
    lemma_inverse_sgrs();
    printable::plain_text_is_printable(inner);
    assert(seen.take(4) =~= INVERSE_ON@);
    assert(seen.skip(start as int) =~= INVERSE_OFF@);
    assert(seen.subrange(4, start as int) =~= inner);
    let on = sgr::sgr_of(INVERSE_ON@)->0;
    let off = sgr::sgr_of(INVERSE_OFF@)->0;
    assert(on[0].code == Some(7u16) && off[0].code == Some(27u16));
    assert(on.drop_last() =~= seq![]);
    assert(off.drop_last() =~= seq![]);
    reveal_with_fuel(sgr::kept_params, 2);
    assert(sgr::kept_params(on, 7) =~= seq![]);
    assert(sgr::kept_params(off, 27) =~= seq![]);
    assert forall|n: int| 4 < n <= seen.len() implies csi::last_escape(#[trigger] seen.take(n)) == (
    if n <= start {
        0
    } else {
        start as int
    }) by {
        let part = seen.take(n);
        csi::lemma_last_escape(part);
        let last = csi::last_escape(part);
        assert(part[0] == ESC);
        if n > start {
            assert(part[start as int] == ESC);
        }
        if 4 <= last < start {
            assert(part[last] == inner[last - 4]);
        }
    }
    assert(seen.take(seen.len() as int) =~= seen);
    assert(csi::last_escape(seen) == start);
    assert forall|n: int| opening_len < n < seen.len() implies !closes(
        #[trigger] seen.take(n),
        opening_len,
    ) by {
        let part = seen.take(n);
        if n > start {
            assert(part.skip(start as int).last() != LOWER_M) by {
                assert(part.skip(start as int).last() == INVERSE_OFF@[n - start - 1]);
            }
        }
    }
    lemma_closing_settles(seen, opening_len);
    assert(Seq::<u8>::empty() + inner + Seq::<u8>::empty() =~= inner);
}

/// Text in inverse loses its inverse where it is exactly one grapheme, and
/// keeps all its bytes where it is not.
pub proof fn inverse_graphemes_lose_their_inverse(inner: Seq<u8>)
    requires
        printable::is_plain_text(inner),
        0 < inner.len(),
        INVERSE_ON@.len() + inner.len() + INVERSE_OFF@.len() <= MAX_PENDING_FAKE_CURSOR_LEN + 1,
    ensures
        ink::ink_answer(
            seq![],
            seq![],
            model::Call::Chunk(INVERSE_ON@ + inner + INVERSE_OFF@),
        ) == (
            Seq::<u8>::empty(),
            Seq::<u8>::empty(),
            if ink::grapheme_count(vstd::utf8::decode_utf8(inner)) == 1 {
                inner
            } else {
                INVERSE_ON@ + inner + INVERSE_OFF@
            },
        ),
{
    let hide = dropping::drop_step(Dropped::CursorHide);
    lemma_inverse_graphemes(inner);
    assert(!inner.contains(ESC)) by {
        if inner.contains(ESC) {
            assert(bytes::SPACE <= inner[inner.index_of(ESC)]);
        }
    }
    dropping::plain_text_passes(Dropped::CursorHide, inner);
    lemma_inverse_sgrs();
    sgr::reading_keeps_every_byte(INVERSE_ON@);
    sgr::reading_keeps_every_byte(INVERSE_OFF@);
    assert(INVERSE_ON@ != dropping::HIDE_CURSOR@) by {
        assert(INVERSE_ON@.len() != dropping::HIDE_CURSOR@.len());
    }
    assert(INVERSE_OFF@ != dropping::HIDE_CURSOR@) by {
        assert(INVERSE_OFF@.len() != dropping::HIDE_CURSOR@.len());
    }
    dropping::complete_sequence_is_dropped_or_kept(Dropped::CursorHide, INVERSE_ON@);
    dropping::complete_sequence_is_dropped_or_kept(Dropped::CursorHide, INVERSE_OFF@);
    model::lemma_feed_concat(hide, seq![], INVERSE_ON@, inner);
    model::lemma_feed_concat(hide, seq![], INVERSE_ON@ + inner, INVERSE_OFF@);
}

/// Text without escape sequences passes the stripping of fake cursors
/// unchanged.
pub proof fn plain_text_passes(data: Seq<u8>)
    requires
        !data.contains(ESC),
    ensures
        model::feed(ink::fake_cursor_step(), seq![], data) == (Seq::<u8>::empty(), data),
        chain::chain_reply(
            ink::ink_stages(seq![], seq![]),
            seq![model::Call::Chunk(data)],
        ) == data,
{
    let step = ink::fake_cursor_step();
    assert forall|byte: u8| byte != ESC implies #[trigger] step(seq![], byte) == (
        Seq::<u8>::empty(),
        seq![byte],
    ) by {
        assert(Seq::<u8>::empty().push(byte) =~= seq![byte]);
    }
    model::lemma_feed_copies(step, ESC, data);
    dropping::plain_text_passes(Dropped::CursorHide, data);
    let none = Seq::<u8>::empty();
    chain::lemma_pair_answers(
        step,
        none,
        none,
        dropping::drop_step(Dropped::CursorHide),
        none,
        none,
        model::Call::Chunk(data),
    );
}

/// Everything that the filter makes of a whole stream, in whatever chunks, is
/// what the stripping of fake cursors makes of it, without the sequences that
/// hide the cursor. None of those is left: not in a candidate, fake cursor or
/// not, and not one that formed where something was taken out.
pub proof fn no_cursor_hiding_is_left(chunks: Seq<Seq<u8>>)
    ensures
        ({
            let filter = chain::chain_behaviour(ink::ink_stages(seq![], seq![]));
            let all = model::outputs(filter, model::whole_stream(chunks));
            let (held, out) = model::feed(
                ink::fake_cursor_step(),
                seq![],
                model::concat(chunks),
            );
            &&& all == dropping::without(Dropped::CursorHide, out + held)
            &&& dropping::is_free_of(Dropped::CursorHide, all)
        }),
{
    let first = ink::fake_cursor_step();
    let second = dropping::drop_step(Dropped::CursorHide);
    let (held, out) = model::feed(first, seq![], model::concat(chunks));
    chain::pairs_filter_whole_streams(first, second, chunks);
    dropping::exactly_these_are_dropped(Dropped::CursorHide, out + held);
    dropping::none_of_these_is_left(Dropped::CursorHide, out + held);
}

/// The filter never adds or reorders bytes of a whole stream, in whatever
/// chunks: everything that it lets out, up to and with the end, is a subsequence
/// of what it was given.
pub proof fn whole_streams_only_lose_bytes(chunks: Seq<Seq<u8>>)
    ensures
        model::is_subsequence(
            model::outputs(
                chain::chain_behaviour(ink::ink_stages(seq![], seq![])),
                model::whole_stream(chunks),
            ),
            model::concat(chunks),
        ),
{
    let data = model::concat(chunks);
    let (held, out) = model::feed(ink::fake_cursor_step(), seq![], data);
    let left = dropping::without(Dropped::CursorHide, out + held);
    no_cursor_hiding_is_left(chunks);
    lemma_stripping_removes(data);
    dropping::dropping_removes(Dropped::CursorHide, out + held);
    model::lemma_subsequence_of_subsequence(left, out + held, data);
}

/// Whether `bytes` is one byte other than ESC, an escape of two bytes, or one
/// CSI that does not open a fake cursor.
pub open spec fn is_unit(bytes: Seq<u8>) -> bool {
    ||| bytes.len() == 1 && bytes[0] != ESC
    ||| bytes.len() == 2 && bytes[0] == ESC && bytes[1] != bytes::BRACKET && bytes[1] != ESC
    ||| csi::is_csi(bytes) && !ink::is_opening(bytes)
}

pub proof fn lemma_unit_passes(unit: Seq<u8>)
    requires
        is_unit(unit),
    ensures
        model::feed(ink::fake_cursor_step(), seq![], unit) == (Seq::<u8>::empty(), unit),
{
    let step = ink::fake_cursor_step();
    let len = unit.len() - 1;
    let empty = Seq::<u8>::empty();
    if csi::is_csi(unit) {
        csi::lemma_after_final(unit, 2);
    }
    assert forall|i: int| 0 <= i < len implies step(unit.take(i), #[trigger] unit[i]) == (
        unit.take(i + 1),
        empty,
    ) by {
        let held = unit.take(i);
        let next = unit.take(i + 1);
        assert(held.push(unit[i]) =~= next);
        if i > 1 {
            csi::lemma_prefix_is_open(unit, i);
        }
        if i > 0 {
            csi::lemma_prefix_is_open(unit, i + 1);
        }
    }
    model::lemma_feed_holds(step, unit, len);
    let held = unit.take(len);
    assert(held.push(unit[len]) =~= unit);
    assert(held =~= unit.drop_last());
    if len > 1 {
        csi::lemma_prefix_is_open(unit, len);
    }
    assert(empty + unit =~= unit);
}

/// Of a stream of characters and escape sequences that never opens a fake
/// cursor exactly the sequences that hide the cursor are dropped, however the
/// stream is cut.
pub proof fn only_cursor_hiding_is_dropped(units: Seq<Seq<u8>>)
    requires
        forall|i: int| 0 <= i < units.len() ==> is_unit(#[trigger] units[i]),
    ensures
        ({
            let (candidate, hides, out) = ink::ink_answer(
                seq![],
                seq![],
                model::Call::Chunk(model::concat(units)),
            );
            &&& candidate == Seq::<u8>::empty()
            &&& out + hides == dropping::without(Dropped::CursorHide, model::concat(units))
        }),
{
    let none = Seq::<u8>::empty();
    assert forall|i: int| 0 <= i < units.len() implies model::feed(
        ink::fake_cursor_step(),
        seq![],
        #[trigger] units[i],
    ) == (none, units[i]) by {
        lemma_unit_passes(units[i]);
    }
    assert(model::feed(ink::fake_cursor_step(), seq![], none) == (none, none));
    model::lemma_feed_units(ink::fake_cursor_step(), units, units, none);
    assert(model::concat(units) + none =~= model::concat(units));
    dropping::exactly_these_are_dropped(Dropped::CursorHide, model::concat(units));
}

/// Whether every ESC of `inner` starts a complete CSI that is no SGR, such as a
/// cursor movement.
pub open spec fn only_moves(inner: Seq<u8>) -> bool {
    forall|i: int|
        0 <= i < inner.len() && #[trigger] inner[i] == ESC ==> exists|j: int|
            is_move_at(inner, i, j)
}

/// Whether a CSI that is no SGR stands in `inner` from `i` to `j`.
pub open spec fn is_move_at(inner: Seq<u8>, i: int, j: int) -> bool {
    &&& i + 2 <= j < inner.len()
    &&& inner[i + 1] == bytes::BRACKET
    &&& csi::is_csi_final(inner[j])
    &&& inner[j] != LOWER_M
    &&& forall|k: int| i + 2 <= k < j ==> !csi::is_csi_final(#[trigger] inner[k])
}

/// What is left of a fake cursor: its text, and every attribute that its SGRs
/// set other than inverse; nothing of an SGR that clears all attributes.
pub open spec fn without_inverse(
    opening: Seq<Attribute>,
    inner: Seq<u8>,
    closing: Seq<Attribute>,
) -> Seq<u8> {
    let on = sgr_laws::attributes_without(opening, 7);
    let off = sgr_laws::attributes_without(closing, 27);
    let front = if on.len() == 0 {
        Seq::<u8>::empty()
    } else {
        sgr_laws::written_sgr(on)
    };
    let back = if off.len() == 0 || sgr_laws::sets(closing, 0) {
        Seq::<u8>::empty()
    } else {
        sgr_laws::written_sgr(off)
    };
    front + inner + back
}

/// Whether two SGRs open and close inverse text, whatever else they set.
pub open spec fn turn_inverse_on_and_off(
    opening: Seq<Attribute>,
    closing: Seq<Attribute>,
) -> bool {
    &&& forall|i: int| 0 <= i < opening.len() ==> sgr_laws::is_attribute(#[trigger] opening[i])
    &&& forall|i: int| 0 <= i < closing.len() ==> sgr_laws::is_attribute(#[trigger] closing[i])
    &&& sgr_laws::sets(opening, 7)
    &&& !sgr_laws::sets(opening, 0)
    &&& sgr_laws::sets(closing, 27) || sgr_laws::sets(closing, 0)
}

/// The two SGRs, as they are read.
proof fn lemma_sgrs_of_inverse(opening: Seq<Attribute>, closing: Seq<Attribute>)
    requires
        turn_inverse_on_and_off(opening, closing),
        sgr_laws::written_sgr(opening).len() <= MAX_PENDING_FAKE_CURSOR_LEN,
    ensures
        ink::is_opening(sgr_laws::written_sgr(opening)),
        ink::is_closing(sgr_laws::written_sgr(closing)),
        sgr::sgr_of(sgr_laws::written_sgr(opening)) == Some(sgr_laws::parameters(opening)),
        sgr::sgr_of(sgr_laws::written_sgr(closing)) == Some(sgr_laws::parameters(closing)),
        forall|inner: Seq<u8>, graphemes: Option<usize>|
            inner.len() > 0 ==> #[trigger] ink::stripped(
                sgr_laws::parameters(opening),
                inner,
                sgr_laws::parameters(closing),
                graphemes,
            ) == if graphemes == Some(1usize) {
                Some(without_inverse(opening, inner, closing))
            } else {
                None
            },
{
    sgr_laws::attributes_are_read_back(opening);
    sgr_laws::attributes_are_read_back(closing);
    sgr_laws::other_attributes_are_kept(opening, 7);
    sgr_laws::other_attributes_are_kept(closing, 27);
    sgr_laws::numbers_are_those_of_the_attributes(opening, 7);
    sgr_laws::numbers_are_those_of_the_attributes(opening, 0);
    sgr_laws::numbers_are_those_of_the_attributes(closing, 27);
    sgr_laws::numbers_are_those_of_the_attributes(closing, 0);
}

/// An SGR holds no ESC but its first byte, and no `m` but its last.
proof fn lemma_sgr_bytes(attributes: Seq<Attribute>)
    requires
        forall|i: int|
            0 <= i < attributes.len() ==> sgr_laws::is_attribute(#[trigger] attributes[i]),
    ensures
        ({
            let data = sgr_laws::written_sgr(attributes);
            &&& data.len() >= 3
            &&& data[0] == ESC
            &&& data.last() == LOWER_M
            &&& forall|i: int|
                1 <= i < data.len() - 1 ==> #[trigger] data[i] != ESC && data[i] != LOWER_M
        }),
{
    let data = sgr_laws::written_sgr(attributes);
    let text = sgr_laws::attributes_text(attributes);
    sgr_laws::attributes_are_written_in_numbers(attributes);
    assert forall|i: int| 1 <= i < data.len() - 1 implies #[trigger] data[i] != ESC && data[i]
        != LOWER_M by {
        if i >= 2 {
            assert(data[i] == text[i - 2]);
            assert(sgr_laws::is_sgr_byte(text[i - 2]));
        }
    }
}

/// Movements inside inverse text do not close it.
proof fn lemma_moves_do_not_close(on: Seq<u8>, inner: Seq<u8>, off: Seq<u8>, n: int)
    requires
        on.len() > 0,
        only_moves(inner),
        off.len() >= 3,
        off[0] == ESC,
        off.last() == LOWER_M,
        forall|i: int| 1 <= i < off.len() - 1 ==> #[trigger] off[i] != ESC && off[i] != LOWER_M,
        on.len() < n < on.len() + inner.len() + off.len(),
    ensures
        !closes((on + inner + off).take(n), on.len() as int),
{
    let seen = on + inner + off;
    let opening_len = on.len() as int;
    let start = (on.len() + inner.len()) as int;
    let part = seen.take(n);
    let last = csi::last_escape(part);
    csi::lemma_last_escape(part);
    if last >= opening_len {
        let rest = part.skip(last);
        assert(rest.last() == seen[n - 1]);
        if last >= start {
            assert(seen[last] == off[last - start]);
            assert(last == start);
            assert(seen[n - 1] == off[n - 1 - start]);
            assert(sgr::sgr_body(rest) is None);
        } else {
            let i = last - opening_len;
            assert(inner[i] == seen[last]);
            let j = choose|j: int| is_move_at(inner, i, j);
            assert(seen[opening_len + j] == inner[j]);
            if n - 1 > opening_len + j {
                assert(rest[j - i] == seen[opening_len + j]);
                assert(!sgr_laws::is_sgr_byte(inner[j]));
                sgr_laws::other_bytes_make_no_sgr(rest, j - i);
            } else {
                let k = n - 1 - opening_len;
                assert(seen[n - 1] == inner[k]);
                if k >= i + 2 && k < j {
                    assert(!csi::is_csi_final(inner[k]));
                }
                assert(sgr::sgr_body(rest) is None);
            }
        }
    }
}

/// Whatever else its SGRs set, a fake cursor that prints exactly one grapheme
/// loses its inverse and nothing more, also with cursor movements around the
/// grapheme; any other inverse text keeps all its bytes.
pub proof fn fake_cursors_lose_their_inverse(
    opening: Seq<Attribute>,
    inner: Seq<u8>,
    closing: Seq<Attribute>,
)
    requires
        turn_inverse_on_and_off(opening, closing),
        inner.len() > 0,
        only_moves(inner),
        (sgr_laws::written_sgr(opening) + inner + sgr_laws::written_sgr(closing)).len() <= 65,
    ensures
        ({
            let seen = sgr_laws::written_sgr(opening) + inner + sgr_laws::written_sgr(closing);
            let printed = printable::printable_text(inner);
            model::feed(ink::fake_cursor_step(), seq![], seen) == (
                Seq::<u8>::empty(),
                if printed is Some && ink::grapheme_count(printed->0) == 1 {
                    without_inverse(opening, inner, closing)
                } else {
                    seen
                },
            )
        }),
{
    let on = sgr_laws::written_sgr(opening);
    let off = sgr_laws::written_sgr(closing);
    let seen = on + inner + off;
    let opening_len = on.len() as int;
    let start = (on.len() + inner.len()) as int;
    lemma_sgrs_of_inverse(opening, closing);
    lemma_sgr_bytes(closing);
    assert(seen.take(opening_len) =~= on);
    assert(seen.skip(start) =~= off);
    assert(seen.subrange(opening_len, start) =~= inner);
    assert(csi::last_escape(seen) == start) by {
        csi::lemma_last_escape(seen);
        let last = csi::last_escape(seen);
        assert(seen[start] == off[0]);
        if last > start {
            assert(seen[last] == off[last - start]);
        }
    }
    assert(closes(seen, opening_len));
    assert forall|n: int| opening_len < n < seen.len() implies !closes(
        #[trigger] seen.take(n),
        opening_len,
    ) by {
        lemma_moves_do_not_close(on, inner, off, n);
    }
    lemma_closing_settles(seen, opening_len);
}

/// Inverse text that nothing closes within sixty-four bytes is let out as it
/// is, but for an ESC at its end, which may start the next sequence.
pub proof fn long_inverse_text_is_let_out(opening: Seq<Attribute>, inner: Seq<u8>)
    requires
        forall|i: int| 0 <= i < opening.len() ==> sgr_laws::is_attribute(#[trigger] opening[i]),
        sgr_laws::sets(opening, 7),
        !sgr_laws::sets(opening, 0),
        (sgr_laws::written_sgr(opening) + inner).len() == 65,
        inner.len() > 0,
        !inner.drop_last().contains(ESC),
    ensures
        ({
            let seen = sgr_laws::written_sgr(opening) + inner;
            &&& model::feed(ink::fake_cursor_step(), seq![], seen) == if inner.last() == ESC {
                (seq![ESC], seen.drop_last())
            } else {
                (seq![], seen)
            }
            &&& model::feed(ink::fake_cursor_step(), seq![], seen.take(64)) == (
                seen.take(64),
                Seq::<u8>::empty(),
            )
        }),
{
    let on = sgr_laws::written_sgr(opening);
    let seen = on + inner;
    let opening_len = on.len() as int;
    let len = seen.len() - 1;
    sgr_laws::attributes_are_read_back(opening);
    sgr_laws::numbers_are_those_of_the_attributes(opening, 7);
    sgr_laws::numbers_are_those_of_the_attributes(opening, 0);
    assert(seen.take(opening_len) =~= on);
    assert forall|n: int| opening_len < n <= seen.len() implies !closes(
        #[trigger] seen.take(n),
        opening_len,
    ) by {
        let part = seen.take(n);
        csi::lemma_last_escape(part);
        let last = csi::last_escape(part);
        if last >= opening_len {
            assert(part[last] == inner[last - opening_len]);
            assert(last == len) by {
                if last < len {
                    assert(inner.drop_last()[last - opening_len] == ESC);
                }
            }
            assert(part.skip(last).len() == 1);
        }
    }
    lemma_candidate_is_held(seen, opening_len, len);
    assert(seen.take(len) =~= seen.drop_last());
    assert(seen =~= seen.take(len).push(seen.last()));
    assert(seen.take(seen.len() as int) =~= seen);
    assert(!closes(seen, opening_len));
    assert(seen.last() == inner.last());
    assert(Seq::<u8>::empty() + seen =~= seen);
    assert(Seq::<u8>::empty() + seen.drop_last() =~= seen.drop_last());
}

/// ESCs in front of a sequence change nothing of what becomes of it: they are
/// let out in front of it.
pub proof fn escapes_in_front_are_let_out(escapes: Seq<u8>, data: Seq<u8>)
    requires
        forall|i: int| 0 <= i < escapes.len() ==> escapes[i] == ESC,
        data.len() > 0,
        data[0] == ESC,
    ensures
        ({
            let (held, out) = model::feed(ink::fake_cursor_step(), seq![], data);
            model::feed(ink::fake_cursor_step(), seq![], escapes + data) == (held, escapes + out)
        }),
    decreases escapes.len(),
{
    let step = ink::fake_cursor_step();
    let none = Seq::<u8>::empty();
    let (held, out) = model::feed(step, none, data);
    if escapes.len() == 0 {
        assert(escapes + data =~= data);
        assert(escapes + out =~= out);
    } else {
        let rest = escapes.drop_last();
        let one = seq![ESC];
        let more = one + data;
        assert(escapes =~= rest + one);
        assert(escapes + data =~= rest + more);
        lemma_one_escape(data);
        escapes_in_front_are_let_out(rest, more);
        assert(rest + (one + out) =~= escapes + out);
    }
}

proof fn lemma_one_escape(data: Seq<u8>)
    requires
        data.len() > 0,
        data[0] == ESC,
    ensures
        ({
            let (held, out) = model::feed(ink::fake_cursor_step(), seq![], data);
            model::feed(ink::fake_cursor_step(), seq![], seq![ESC] + data) == (
                held,
                seq![ESC] + out,
            )
        }),
{
    let step = ink::fake_cursor_step();
    let none = Seq::<u8>::empty();
    let one = seq![ESC];
    let two = one + one;
    let tail = data.skip(1);
    let (held, out) = model::feed(step, one, tail);
    assert(one.drop_last() =~= none);
    assert(none.push(ESC) =~= one);
    assert(model::feed(step, none, none) == (none, none));
    assert(model::feed(step, none, one) == (one, none)) by {
        assert(none + none =~= none);
    }
    assert(two.drop_last() =~= one);
    assert(one.push(ESC) =~= two);
    assert(two.drop_last() =~= seq![ESC]);
    csi::lemma_after_final(one, 2);
    assert(step(one, ESC) == (one, one));
    assert(model::feed(step, none, two) == (one, none + one));
    assert(none + one =~= one);
    assert(data =~= one + tail);
    assert(one + data =~= two + tail);
    model::lemma_feed_concat(step, none, one, tail);
    model::lemma_feed_concat(step, none, two, tail);
    assert(none + out =~= out);
}

} // verus!
