//! Dropping control sequences of one kind.
use std::borrow::Cow;
use vstd::prelude::*;

use crate::bytes::{digits_only, same_bytes, BRACKET, ESC, LOWER_Q, SPACE};
use crate::filters::{csi, model};

verus! {

/// `ESC [ ? 2 5 l`, which hides the cursor.
pub const HIDE_CURSOR: [u8; 6] = [0x1b, 0x5b, 0x3f, 0x32, 0x35, 0x6c];

/// Which sequences are dropped.
#[derive(Debug, Clone, Copy, PartialEq, Eq, Structural)]
pub enum Dropped {
    /// Those that set the cursor shape.
    CursorShape,
    /// Those that hide the cursor.
    CursorHide,
}

/// Whether `csi` is `ESC [`, any number of digits, a space and `q`.
pub open spec fn is_decscusr_sequence(csi: Seq<u8>) -> bool {
    &&& csi.len() >= 4
    &&& csi[0] == ESC
    &&& csi[1] == BRACKET
    &&& csi[csi.len() - 2] == SPACE
    &&& csi[csi.len() - 1] == LOWER_Q
    &&& crate::bytes::all_digits(csi.subrange(2, csi.len() - 2))
}

/// Whether `csi` is one of the sequences that are dropped.
pub open spec fn is_dropped(kind: Dropped, csi: Seq<u8>) -> bool {
    match kind {
        Dropped::CursorShape => is_decscusr_sequence(csi),
        Dropped::CursorHide => csi == HIDE_CURSOR@,
    }
}

/// Whether `bytes` is an ESC, or a CSI without its final byte.
pub open spec fn is_open(bytes: Seq<u8>) -> bool {
    bytes.len() == 1 && bytes[0] == ESC || csi::is_open_csi(bytes)
}

/// Whether `held` is made of sequences none of which is complete: every ESC
/// that follows the first has cut the one before it off.
pub open spec fn is_partial(held: Seq<u8>) -> bool
    decreases held.len(),
{
    ||| held.len() == 0
    ||| {
        let start = csi::last_escape(held);
        0 <= start < held.len() && is_open(held.skip(start)) && is_partial(held.take(start))
    }
}

/// Incomplete sequences are held back. When the last of them becomes complete
/// and is one to drop, it is dropped, and those in front of it stay held back,
/// so that what follows cannot complete one of them unseen. When it is any
/// other, all are let out.
pub open spec fn drop_step(kind: Dropped) -> model::ByteStep {
    |held: Seq<u8>, byte: u8|
        {
            let seen = held.push(byte);
            let start = csi::last_escape(seen);
            if is_partial(seen) {
                (seen, seq![])
            } else if start >= 0 && is_dropped(kind, seen.skip(start)) {
                (seen.take(start), seq![])
            } else {
                (seq![], seen)
            }
        }
}

/// `data` without the sequences to drop. They are taken out from left to
/// right, as soon as they are complete; one that forms where another was taken
/// out is taken out too.
pub open spec fn without(kind: Dropped, data: Seq<u8>) -> Seq<u8>
    decreases data.len(),
{
    if data.len() == 0 {
        seq![]
    } else {
        let seen = without(kind, data.drop_last()).push(data.last());
        let start = csi::last_escape(seen);
        if start >= 0 && is_dropped(kind, seen.skip(start)) {
            seen.take(start)
        } else {
            seen
        }
    }
}

/// The shape of a sequence that is dropped.
pub proof fn lemma_dropped_shape(kind: Dropped, csi: Seq<u8>)
    requires
        is_dropped(kind, csi),
    ensures
        csi::is_csi(csi),
        csi.len() >= 3,
        forall|i: int| 0 < i < csi.len() ==> csi[i] != ESC,
{
    csi::lemma_after_final(csi, 2);
    let last = csi.len() - 1;
    assert(csi::is_csi_final(csi[last]));
    if kind == Dropped::CursorShape {
        let digits = csi.subrange(2, csi.len() - 2);
        assert forall|i: int| 2 <= i < last implies !csi::is_csi_final(#[trigger] csi[i]) && csi[i]
            != ESC by {
            if i < last - 1 {
                assert(crate::bytes::is_digit(digits[i - 2]));
                assert(digits[i - 2] == csi[i]);
            }
        }
    } else {
        assert forall|i: int| 2 <= i < last implies !csi::is_csi_final(#[trigger] csi[i]) && csi[i]
            != ESC by {
            assert(csi[i] == HIDE_CURSOR@[i]);
        }
    }
}

/// One byte behind incomplete sequences.
proof fn lemma_partial_push(held: Seq<u8>, byte: u8)
    requires
        is_partial(held),
    ensures
        ({
            let seen = held.push(byte);
            let start = csi::last_escape(held);
            &&& byte == ESC ==> is_partial(seen) && csi::last_escape(seen) == held.len()
            &&& byte != ESC ==> csi::last_escape(seen) == start
            &&& byte != ESC && held.len() == 0 ==> !is_partial(seen) && start == -1
            &&& byte != ESC && held.len() > 0 ==> {
                &&& 0 <= start < held.len()
                &&& is_open(held.skip(start))
                &&& is_partial(held.take(start))
                &&& seen.skip(start) == held.skip(start).push(byte)
                &&& seen.take(start) == held.take(start)
                &&& is_partial(seen) == is_open(held.skip(start).push(byte))
            }
        }),
{
    let seen = held.push(byte);
    let start = csi::last_escape(held);
    csi::lemma_last_escape(held);
    csi::lemma_last_escape(seen);
    assert(seen.drop_last() =~= held);
    if byte == ESC {
        assert(seen.skip(held.len() as int) =~= seq![ESC]);
        assert(seen.take(held.len() as int) =~= held);
    } else if held.len() > 0 {
        assert(seen.skip(start) =~= held.skip(start).push(byte));
        assert(seen.take(start) =~= held.take(start));
    }
}

/// The last of the incomplete sequences with one byte more.
proof fn lemma_open_push(tail: Seq<u8>, byte: u8)
    requires
        is_open(tail),
        byte != ESC,
    ensures
        is_open(tail.push(byte)) == if tail.len() == 1 {
            byte == BRACKET
        } else {
            !csi::is_csi_final(byte)
        },
        tail.len() > 1 && csi::is_csi_final(byte) ==> csi::is_csi(tail.push(byte)),
{
    if tail.len() > 1 {
        csi::lemma_after_final_push(tail, 2, byte);
    }
}

/// Whether `csi` is one of the sequences that are dropped.
fn is_dropped_csi(kind: Dropped, csi: &[u8]) -> (yes: bool)
    ensures
        yes == is_dropped(kind, csi@),
{
    match kind {
        Dropped::CursorShape => is_decscusr(csi),
        Dropped::CursorHide => same_bytes(csi, &HIDE_CURSOR),
    }
}

fn is_decscusr(csi: &[u8]) -> (yes: bool)
    ensures
        yes == is_decscusr_sequence(csi@),
{
    // Expect: ESC [ <digits>* SP q
    csi.len() >= 4 && csi[0] == ESC && csi[1] == BRACKET && csi[csi.len() - 2] == SPACE && csi[
    csi.len() - 1] == LOWER_Q && digits_only(&csi[2..csi.len() - 2])
}

/// Collects sequences and drops those of one kind.
#[derive(Debug)]
pub struct CsiDropper {
    kind: Dropped,
    pending: Vec<u8>,
    start: usize,
}

impl CsiDropper {
    /// The sequences that are dropped.
    pub closed spec fn kind(self) -> Dropped {
        self.kind
    }

    /// The bytes that are held back.
    pub closed spec fn held(self) -> Seq<u8> {
        self.pending@
    }

    /// Whether what is held back is incomplete, and where the last of it
    /// starts is known.
    pub closed spec fn well_formed(self) -> bool {
        &&& is_partial(self.pending@)
        &&& self.pending@.len() > 0 ==> self.start == csi::last_escape(self.pending@)
    }

    /// Creates a dropper that holds back nothing.
    pub fn new(kind: Dropped) -> (dropper: Self)
        ensures
            dropper.well_formed(),
            dropper.kind() == kind,
            dropper.held() == Seq::<u8>::empty(),
    {
        CsiDropper { kind, pending: Vec::new(), start: 0 }
    }

    /// Takes one byte, and appends to `out` what is let out.
    fn take(&mut self, byte: u8, out: &mut Vec<u8>)
        requires
            old(self).well_formed(),
        ensures
            final(self).well_formed(),
            final(self).kind == old(self).kind,
            ({
                let step = drop_step(old(self).kind)(old(self).pending@, byte);
                final(self).pending@ == step.0 && final(out)@ == old(out)@ + step.1
            }),
    {
        let ghost held = self.pending@;
        let ghost seen = held.push(byte);
        let ghost step = drop_step(self.kind)(held, byte);
        proof {
            lemma_partial_push(held, byte);
            assert(out@ + Seq::<u8>::empty() =~= out@);
        }
        let len: usize = self.pending.len();
        let start: usize = self.start;
        self.pending.push(byte);
        if byte == ESC {
            self.start = len;
            return;
        }
        if len == 0 {
            out.append(&mut self.pending);
            return;
        }
        proof {
            lemma_open_push(held.skip(start as int), byte);
            csi::lemma_last_escape(held);
        }
        if len - start == 1 {
            if byte != BRACKET {
                proof {
                    if is_dropped(self.kind, seen.skip(start as int)) {
                        lemma_dropped_shape(self.kind, seen.skip(start as int));
                    }
                }
                out.append(&mut self.pending);
            }
            return;
        }
        if 0x40 <= byte && byte <= 0x7e {
            assert(self.pending@.subrange(start as int, seen.len() as int) =~= seen.skip(
                start as int,
            ));
            if is_dropped_csi(self.kind, &self.pending.as_slice()[start..self.pending.len()]) {
                self.pending.truncate(start);
                assert(self.pending@ =~= seen.take(start as int));
                self.start = match csi::find_last_escape(&self.pending) {
                    Some(at) => at,
                    None => 0,
                };
            } else {
                out.append(&mut self.pending);
            }
        }
    }

    /// Filters a chunk.
    pub fn filter<'a>(&mut self, data: &'a [u8]) -> (out: Cow<'a, [u8]>)
        requires
            old(self).well_formed(),
        ensures
            final(self).well_formed(),
            final(self).kind() == old(self).kind(),
            (final(self).held(), out@) == model::feed(
                drop_step(old(self).kind()),
                old(self).held(),
                data@,
            ),
            out is Borrowed <==> old(self).held().len() == 0 && !data@.contains(ESC),
    {
        let ghost step = drop_step(self.kind);
        if self.pending.len() == 0 && memchr::memchr(ESC, data).is_none() {
            proof {
                assert(self.pending@ =~= seq![]);
                plain_text_passes(self.kind, data@);
            }
            return Cow::Borrowed(data);
        }
        let mut out: Vec<u8> = Vec::with_capacity(data.len());
        let mut i: usize = 0;
        while i < data.len()
            invariant
                i <= data@.len(),
                step == drop_step(self.kind),
                self.kind == old(self).kind,
                self.well_formed(),
                (self.pending@, out@) == model::feed(
                    step,
                    old(self).pending@,
                    data@.take(i as int),
                ),
            decreases data@.len() - i,
        {
            proof {
                let taken = data@.take(i as int);
                model::lemma_feed_push(step, old(self).pending@, taken, data@[i as int]);
                assert(taken.push(data@[i as int]) =~= data@.take(i + 1));
            }
            self.take(data[i], &mut out);
            i += 1;
        }
        assert(data@.take(i as int) =~= data@);
        Cow::Owned(out)
    }

    /// Returns what is held back, which will not become complete.
    pub fn finish(&mut self) -> (tail: Vec<u8>)
        ensures
            final(self).well_formed(),
            final(self).kind() == old(self).kind(),
            final(self).held() == Seq::<u8>::empty(),
            tail@ == old(self).held(),
    {
        let mut tail: Vec<u8> = Vec::new();
        tail.append(&mut self.pending);
        tail
    }
}

/// Text without escape sequences passes unchanged.
pub proof fn plain_text_passes(kind: Dropped, data: Seq<u8>)
    requires
        !data.contains(ESC),
    ensures
        model::feed(drop_step(kind), seq![], data) == (Seq::<u8>::empty(), data),
{
    assert forall|byte: u8| byte != ESC implies #[trigger] drop_step(kind)(seq![], byte) == (
        Seq::<u8>::empty(),
        seq![byte],
    ) by {
        assert(Seq::<u8>::empty().push(byte) =~= seq![byte]);
        lemma_partial_push(seq![], byte);
    }
    model::lemma_feed_copies(drop_step(kind), ESC, data);
}

/// Whether nothing that follows `bytes` can complete a sequence in them.
pub open spec fn is_settled(bytes: Seq<u8>) -> bool {
    csi::last_escape(bytes) >= 0 ==> !is_open(bytes.skip(csi::last_escape(bytes)))
}

proof fn lemma_last_escape_of_both(a: Seq<u8>, b: Seq<u8>)
    ensures
        csi::last_escape(a + b) == if csi::last_escape(b) >= 0 {
            a.len() + csi::last_escape(b)
        } else {
            csi::last_escape(a)
        },
{
    let both = a + b;
    csi::lemma_last_escape(a);
    csi::lemma_last_escape(b);
    csi::lemma_last_escape(both);
    let at = csi::last_escape(both);
    if csi::last_escape(b) >= 0 {
        assert(both[a.len() + csi::last_escape(b)] == ESC);
        if at > a.len() + csi::last_escape(b) {
            assert(both[at] == b[at - a.len()]);
        }
    } else {
        if at >= a.len() {
            assert(both[at] == b[at - a.len()]);
        }
        if csi::last_escape(a) >= 0 {
            assert(both[csi::last_escape(a)] == ESC);
        }
        if at >= 0 {
            assert(both[at] == a[at]);
        }
    }
}

/// A plain byte behind settled bytes completes nothing.
proof fn lemma_settled_push(kind: Dropped, bytes: Seq<u8>, byte: u8)
    requires
        is_settled(bytes),
        byte != ESC,
    ensures
        is_settled(bytes.push(byte)),
        csi::last_escape(bytes.push(byte)) >= 0 ==> !is_dropped(
            kind,
            bytes.push(byte).skip(csi::last_escape(bytes.push(byte))),
        ),
{
    let seen = bytes.push(byte);
    let start = csi::last_escape(bytes);
    assert(seen.drop_last() =~= bytes);
    assert(csi::last_escape(seen) == start);
    csi::lemma_last_escape(bytes);
    if start >= 0 {
        let tail = bytes.skip(start);
        let longer = seen.skip(start);
        assert(longer =~= tail.push(byte));
        let len = tail.len() as int;
        assert(longer.take(len) =~= tail);
        if is_open(longer) {
            if len > 1 {
                csi::lemma_prefix_of_open(longer, len);
            }
            assert(false);
        }
        if is_dropped(kind, longer) {
            lemma_dropped_shape(kind, longer);
            csi::lemma_prefix_is_open(longer, len);
            assert(false);
        }
    }
}

/// What is held back is incomplete, and what has been let out is settled.
proof fn lemma_feed_drops(kind: Dropped, data: Seq<u8>)
    ensures
        ({
            let (held, out) = model::feed(drop_step(kind), seq![], data);
            &&& out + held == without(kind, data)
            &&& is_partial(held)
            &&& is_settled(out)
        }),
    decreases data.len(),
{
    let step = drop_step(kind);
    if data.len() == 0 {
        assert(Seq::<u8>::empty() + Seq::<u8>::empty() =~= Seq::<u8>::empty());
    } else {
        lemma_feed_drops(kind, data.drop_last());
        let (held, out) = model::feed(step, seq![], data.drop_last());
        let byte = data.last();
        let seen = held.push(byte);
        let start = csi::last_escape(seen);
        let all = out + seen;
        assert((out + held).push(byte) =~= all);
        lemma_partial_push(held, byte);
        lemma_last_escape_of_both(out, seen);
        csi::lemma_last_escape(seen);
        if start >= 0 {
            assert(all.skip(out.len() + start) =~= seen.skip(start));
            assert(all.take(out.len() + start) =~= out + seen.take(start));
        }
        if is_partial(seen) {
            if is_dropped(kind, seen.skip(start)) {
                lemma_dropped_shape(kind, seen.skip(start));
                assert(false);
            }
            assert(out + Seq::<u8>::empty() =~= out);
        } else if start >= 0 && is_dropped(kind, seen.skip(start)) {
            assert(out + Seq::<u8>::empty() =~= out);
        } else {
            assert(all + Seq::<u8>::empty() =~= all);
            if held.len() == 0 {
                assert(seen =~= seq![byte]);
                assert(all =~= out.push(byte));
                lemma_settled_push(kind, out, byte);
            }
        }
    }
}

/// Exactly the sequences of the kind are dropped, however the stream is cut:
/// what is let out, and what is then held back, is the stream without them.
/// What is held back is incomplete.
pub proof fn exactly_these_are_dropped(kind: Dropped, data: Seq<u8>)
    ensures
        ({
            let (held, out) = model::feed(drop_step(kind), seq![], data);
            out + held == without(kind, data) && is_partial(held)
        }),
{
    lemma_feed_drops(kind, data);
}

/// Whether no part of `data` is one of the sequences to drop.
pub open spec fn is_free_of(kind: Dropped, data: Seq<u8>) -> bool {
    forall|i: int, j: int|
        0 <= i <= j <= data.len() ==> !is_dropped(kind, #[trigger] data.subrange(i, j))
}

/// None of them is left anywhere, not even one that formed where another was
/// taken out.
pub proof fn none_of_these_is_left(kind: Dropped, data: Seq<u8>)
    ensures
        is_free_of(kind, without(kind, data)),
    decreases data.len(),
{
    let left = without(kind, data);
    if data.len() == 0 {
        assert forall|i: int, j: int| 0 <= i <= j <= left.len() implies !is_dropped(
            kind,
            #[trigger] left.subrange(i, j),
        ) by {
            if is_dropped(kind, left.subrange(i, j)) {
                lemma_dropped_shape(kind, left.subrange(i, j));
            }
        }
    } else {
        none_of_these_is_left(kind, data.drop_last());
        let before = without(kind, data.drop_last());
        let seen = before.push(data.last());
        let start = csi::last_escape(seen);
        csi::lemma_last_escape(seen);
        assert forall|i: int, j: int| 0 <= i <= j <= left.len() implies !is_dropped(
            kind,
            #[trigger] left.subrange(i, j),
        ) by {
            let part = left.subrange(i, j);
            if is_dropped(kind, part) {
                lemma_dropped_shape(kind, part);
                if j <= before.len() {
                    assert(part =~= before.subrange(i, j));
                } else {
                    assert(part[0] == seen[i]);
                    assert forall|k: int| i < k < seen.len() implies seen[k] != ESC by {
                        assert(part[k - i] == seen[k]);
                    }
                    csi::lemma_is_last_escape(seen, i);
                    assert(part =~= seen.skip(start));
                }
            }
        }
    }
}

/// A stream that is free of them passes unchanged, so filtering twice is
/// filtering once.
pub proof fn dropping_twice_is_dropping_once(kind: Dropped, data: Seq<u8>)
    ensures
        is_free_of(kind, data) ==> without(kind, data) == data,
        without(kind, without(kind, data)) == without(kind, data),
{
    if is_free_of(kind, data) {
        lemma_free_stays(kind, data);
    }
    none_of_these_is_left(kind, data);
    lemma_free_stays(kind, without(kind, data));
}

proof fn lemma_free_stays(kind: Dropped, data: Seq<u8>)
    requires
        is_free_of(kind, data),
    ensures
        without(kind, data) == data,
    decreases data.len(),
{
    if data.len() > 0 {
        let before = data.drop_last();
        assert forall|i: int, j: int| 0 <= i <= j <= before.len() implies !is_dropped(
            kind,
            #[trigger] before.subrange(i, j),
        ) by {
            assert(before.subrange(i, j) =~= data.subrange(i, j));
        }
        lemma_free_stays(kind, before);
        assert(before.push(data.last()) =~= data);
        csi::lemma_last_escape(data);
        let start = csi::last_escape(data);
        if start >= 0 {
            assert(data.skip(start) =~= data.subrange(start, data.len() as int));
        }
    } else {
        assert(data =~= seq![]);
    }
}

/// Dropping never adds or reorders bytes.
pub proof fn dropping_removes(kind: Dropped, data: Seq<u8>)
    ensures
        model::is_subsequence(without(kind, data), data),
    decreases data.len(),
{
    if data.len() > 0 {
        let before = without(kind, data.drop_last());
        let byte = seq![data.last()];
        let seen = before.push(data.last());
        let start = csi::last_escape(seen);
        dropping_removes(kind, data.drop_last());
        model::lemma_subsequence_of_itself(byte);
        model::lemma_subsequence_concat(before, data.drop_last(), byte, byte);
        assert(before + byte =~= seen);
        assert(data.drop_last() + byte =~= data);
        csi::lemma_last_escape(seen);
        if start >= 0 {
            let kept = seen.take(start);
            let rest = seen.skip(start);
            let none = Seq::<u8>::empty();
            model::lemma_subsequence_of_itself(kept);
            model::lemma_subsequence_concat(kept, kept, none, rest);
            assert(kept + none =~= kept);
            assert(kept + rest =~= seen);
            model::lemma_subsequence_of_subsequence(kept, seen, data);
        }
    }
}

/// Whether `bytes` is one byte other than ESC, an escape of two bytes, or one
/// CSI that nothing cuts off.
pub open spec fn is_unit(bytes: Seq<u8>) -> bool {
    ||| bytes.len() == 1 && bytes[0] != ESC
    ||| bytes.len() == 2 && bytes[0] == ESC && bytes[1] != BRACKET && bytes[1] != ESC
    ||| csi::is_csi(bytes) && forall|i: int| 0 < i < bytes.len() ==> bytes[i] != ESC
}

/// What is let out of a unit.
pub open spec fn unit_output(kind: Dropped, unit: Seq<u8>) -> Seq<u8> {
    if is_dropped(kind, unit) {
        seq![]
    } else {
        unit
    }
}

proof fn lemma_open_is_partial(bytes: Seq<u8>)
    requires
        is_open(bytes),
        forall|i: int| 0 < i < bytes.len() ==> bytes[i] != ESC,
    ensures
        is_partial(bytes),
        csi::last_escape(bytes) == 0,
{
    csi::lemma_is_last_escape(bytes, 0);
    assert(bytes.skip(0) =~= bytes);
    assert(bytes.take(0) =~= seq![]);
    assert(is_partial(bytes.take(0)));
}

/// A complete sequence by itself is dropped or kept.
pub proof fn complete_sequence_is_dropped_or_kept(kind: Dropped, unit: Seq<u8>)
    requires
        is_unit(unit),
    ensures
        model::feed(drop_step(kind), seq![], unit) == (
            Seq::<u8>::empty(),
            unit_output(kind, unit),
        ),
{
    let step = drop_step(kind);
    let len = unit.len() - 1;
    let none = Seq::<u8>::empty();
    if csi::is_csi(unit) {
        csi::lemma_after_final(unit, 2);
    }
    assert forall|i: int| 0 <= i < len implies step(unit.take(i), #[trigger] unit[i]) == (
        unit.take(i + 1),
        none,
    ) by {
        let seen = unit.take(i + 1);
        assert(unit.take(i).push(unit[i]) =~= seen);
        if i > 0 {
            csi::lemma_prefix_is_open(unit, i + 1);
        }
        lemma_open_is_partial(seen);
    }
    model::lemma_feed_holds(step, unit, len);
    let held = unit.take(len);
    assert(held.push(unit[len]) =~= unit);
    assert(held =~= unit.drop_last());
    if len > 0 {
        if len > 1 {
            csi::lemma_prefix_is_open(unit, len);
        }
        lemma_open_is_partial(held);
        csi::lemma_is_last_escape(unit, 0);
        assert(unit.skip(0) =~= unit);
        assert(unit.take(0) =~= none);
    } else {
        csi::lemma_last_escape(unit);
        if is_dropped(kind, unit) {
            lemma_dropped_shape(kind, unit);
        }
    }
    assert(!is_partial(unit));
    assert(none + unit_output(kind, unit) =~= unit_output(kind, unit));
}

/// Of a stream of characters and complete sequences those of the kind are
/// dropped, and the others keep their bytes and their order.
pub proof fn complete_sequences_are_dropped_or_kept(kind: Dropped, units: Seq<Seq<u8>>)
    requires
        forall|i: int| 0 <= i < units.len() ==> is_unit(#[trigger] units[i]),
    ensures
        model::feed(drop_step(kind), seq![], model::concat(units)) == (
            Seq::<u8>::empty(),
            model::concat(units.map_values(|unit: Seq<u8>| unit_output(kind, unit))),
        ),
{
    let outs = units.map_values(|unit: Seq<u8>| unit_output(kind, unit));
    let none = Seq::<u8>::empty();
    assert forall|i: int| 0 <= i < units.len() implies model::feed(
        drop_step(kind),
        seq![],
        #[trigger] units[i],
    ) == (none, outs[i]) by {
        complete_sequence_is_dropped_or_kept(kind, units[i]);
    }
    assert(model::feed(drop_step(kind), seq![], none) == (none, none));
    model::lemma_feed_units(drop_step(kind), units, outs, none);
    assert(model::concat(units) + none =~= model::concat(units));
}

/// A sequence to drop leaves no trace, also behind sequences that it cuts off:
/// what was held back in front of it is still held back.
pub proof fn dropped_sequences_leave_no_trace(kind: Dropped, held: Seq<u8>, csi: Seq<u8>)
    requires
        is_partial(held),
        is_dropped(kind, csi),
    ensures
        model::feed(drop_step(kind), held, csi) == (held, Seq::<u8>::empty()),
{
    let step = drop_step(kind);
    let len = csi.len() - 1;
    let none = Seq::<u8>::empty();
    lemma_dropped_shape(kind, csi);
    lemma_held_behind(kind, held, csi, len);
    assert(csi.take(len) =~= csi.drop_last());
    let seen = (held + csi.take(len)).push(csi[len]);
    assert(seen =~= held + csi);
    csi::lemma_is_last_escape(csi, 0);
    lemma_last_escape_of_both(held, csi);
    assert(seen.skip(held.len() as int) =~= csi);
    assert(seen.take(held.len() as int) =~= held);
    assert(none + none =~= none);
}

proof fn lemma_held_behind(kind: Dropped, held: Seq<u8>, csi: Seq<u8>, len: int)
    requires
        is_partial(held),
        csi::is_csi(csi),
        forall|i: int| 0 < i < csi.len() ==> csi[i] != ESC,
        0 <= len < csi.len(),
    ensures
        model::feed(drop_step(kind), held, csi.take(len)) == (
            held + csi.take(len),
            Seq::<u8>::empty(),
        ),
        is_partial(held + csi.take(len)),
    decreases len,
{
    let none = Seq::<u8>::empty();
    let taken = csi.take(len);
    if len == 0 {
        assert(taken =~= none);
        assert(held + none =~= held);
    } else {
        lemma_held_behind(kind, held, csi, len - 1);
        let before = csi.take(len - 1);
        assert(taken.drop_last() =~= before);
        assert((held + before).push(csi[len - 1]) =~= held + taken);
        if len > 1 {
            csi::lemma_prefix_is_open(csi, len);
        }
        lemma_open_is_partial(taken);
        lemma_last_escape_of_both(held, taken);
        assert((held + taken).skip(held.len() as int) =~= taken);
        assert((held + taken).take(held.len() as int) =~= held);
        assert(none + none =~= none);
    }
}

} // verus!
