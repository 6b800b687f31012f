//! Relaying OSCs makes no control sequence that was not there.
use vstd::prelude::*;

use crate::bytes::{self, BACKSLASH, BRACKET, ESC};
use crate::filters::dropping::{self, Dropped};
use crate::filters::osc::{self, OscRule};
use crate::filters::tmux_osc_passthrough::{self as relay, WrapListed};
use crate::filters::{csi, model, osc_laws, DropTitles};

verus! {

/// The last sequence of `bytes`, where it may be a CSI.
spec fn last_sequence(bytes: Seq<u8>) -> Option<Seq<u8>> {
    let start = csi::last_escape(bytes);
    if start < 0 || start + 1 < bytes.len() && bytes[start + 1] != BRACKET {
        None
    } else {
        Some(bytes.skip(start))
    }
}

/// Whether what follows `after` makes no CSI that it would not make behind
/// `before`.
spec fn goes_on_like(after: Seq<u8>, before: Seq<u8>) -> bool {
    last_sequence(after) is None || last_sequence(after) == last_sequence(before)
}

proof fn lemma_last_escape_push(bytes: Seq<u8>, byte: u8)
    ensures
        csi::last_escape(bytes.push(byte)) == if byte == ESC {
            bytes.len() as int
        } else {
            csi::last_escape(bytes)
        },
{
    assert(bytes.push(byte).drop_last() =~= bytes);
}

proof fn lemma_free_part(kind: Dropped, bytes: Seq<u8>, from: int, to: int)
    requires
        dropping::is_free_of(kind, bytes),
        0 <= from <= to <= bytes.len(),
    ensures
        dropping::is_free_of(kind, bytes.subrange(from, to)),
{
    let part = bytes.subrange(from, to);
    assert forall|i: int, j: int| 0 <= i <= j <= part.len() implies !dropping::is_dropped(
        kind,
        #[trigger] part.subrange(i, j),
    ) by {
        assert(part.subrange(i, j) =~= bytes.subrange(from + i, from + j));
    }
}

/// One byte more behind both.
proof fn lemma_free_push(kind: Dropped, after: Seq<u8>, before: Seq<u8>, byte: u8)
    requires
        dropping::is_free_of(kind, after),
        goes_on_like(after, before),
        byte != ESC ==> dropping::is_free_of(kind, before.push(byte)),
    ensures
        dropping::is_free_of(kind, after.push(byte)),
        goes_on_like(after.push(byte), before.push(byte)),
{
    let next = after.push(byte);
    let other = before.push(byte);
    csi::lemma_last_escape(after);
    csi::lemma_last_escape(before);
    csi::lemma_last_escape(next);
    csi::lemma_last_escape(other);
    let start = csi::last_escape(after);
    let at = csi::last_escape(before);
    if byte == ESC {
        assert(next[after.len() as int] == ESC);
        assert(other[before.len() as int] == ESC);
        assert(csi::last_escape(next) == after.len());
        assert(csi::last_escape(other) == before.len());
        assert(next.skip(after.len() as int) =~= seq![ESC]);
        assert(other.skip(before.len() as int) =~= seq![ESC]);
    } else {
        lemma_last_escape_push(after, byte);
        lemma_last_escape_push(before, byte);
        if start >= 0 {
            assert(next.skip(start) =~= after.skip(start).push(byte));
        }
        if at >= 0 {
            assert(other.skip(at) =~= before.skip(at).push(byte));
        }
        if last_sequence(after) is Some {
            assert(after.skip(start).len() == before.skip(at).len());
            if start + 1 < after.len() {
                assert(after.skip(start)[1] == after[start + 1]);
                assert(before.skip(at)[1] == before[at + 1]);
            }
        }
    }
    assert forall|i: int, j: int| 0 <= i <= j <= next.len() implies !dropping::is_dropped(
        kind,
        #[trigger] next.subrange(i, j),
    ) by {
        let part = next.subrange(i, j);
        if dropping::is_dropped(kind, part) {
            dropping::lemma_dropped_shape(kind, part);
            if j <= after.len() {
                assert(part =~= after.subrange(i, j));
            } else {
                assert(part[0] == ESC && part[1] == BRACKET);
                assert(byte != ESC) by {
                    assert(part[part.len() - 1] == byte);
                }
                assert(next[i] == part[0]);
                assert(i == start) by {
                    if start > i {
                        assert(part[start - i] == next[start]);
                    }
                }
                assert(next[i + 1] == part[1]);
                assert(last_sequence(after) is Some);
                assert(part =~= after.skip(start).push(byte));
                assert(other.subrange(at, other.len() as int) =~= part);
            }
        }
    }
}

/// One byte more where no CSI can come of it.
proof fn lemma_free_push_plain(kind: Dropped, after: Seq<u8>, byte: u8)
    requires
        dropping::is_free_of(kind, after),
        byte == ESC || last_sequence(after) is None || last_sequence(after) == Some(seq![ESC])
            && byte != BRACKET,
    ensures
        dropping::is_free_of(kind, after.push(byte)),
        byte == ESC ==> last_sequence(after.push(byte)) == Some(seq![ESC]),
        byte != ESC ==> last_sequence(after.push(byte)) is None,
{
    let before = seq![ESC];
    let other = before.push(byte);
    csi::lemma_last_escape(before);
    assert(before.skip(0) =~= before);
    lemma_last_escape_push(after, byte);
    csi::lemma_last_escape(after);
    assert(csi::last_escape(before) == 0) by {
        assert(before[0] == ESC);
    }
    assert forall|i: int, j: int| 0 <= i <= j <= other.len() implies !dropping::is_dropped(
        kind,
        #[trigger] other.subrange(i, j),
    ) by {
        if dropping::is_dropped(kind, other.subrange(i, j)) {
            dropping::lemma_dropped_shape(kind, other.subrange(i, j));
        }
    }
    if byte == ESC {
        let next = after.push(byte);
        csi::lemma_last_escape(next);
        assert(next[after.len() as int] == ESC);
        assert(next.skip(after.len() as int) =~= seq![ESC]);
        assert forall|i: int, j: int| 0 <= i <= j <= next.len() implies !dropping::is_dropped(
            kind,
            #[trigger] next.subrange(i, j),
        ) by {
            let part = next.subrange(i, j);
            if dropping::is_dropped(kind, part) {
                dropping::lemma_dropped_shape(kind, part);
                if j <= after.len() {
                    assert(part =~= after.subrange(i, j));
                } else {
                    assert(part[part.len() - 1] == ESC);
                }
            }
        }
    } else {
        lemma_free_push(kind, after, before, byte);
        let start = csi::last_escape(after);
        if last_sequence(after) is Some {
            assert(after.skip(start).len() == 1);
            assert(after.push(byte)[start + 1] == byte);
        } else if start >= 0 {
            assert(after.push(byte)[start + 1] == after[start + 1]);
        }
    }
}

/// A payload with its ESCs doubled.
proof fn lemma_free_doubled(kind: Dropped, front: Seq<u8>, payload: Seq<u8>)
    requires
        dropping::is_free_of(kind, front),
        last_sequence(front) is None,
        dropping::is_free_of(kind, payload),
    ensures
        dropping::is_free_of(kind, front + relay::doubled(payload)),
        goes_on_like(front + relay::doubled(payload), payload),
    decreases payload.len(),
{
    if payload.len() == 0 {
        assert(front + relay::doubled(payload) =~= front);
    } else {
        let before = payload.drop_last();
        let byte = payload.last();
        lemma_free_part(kind, payload, 0, payload.len() - 1);
        assert(payload.subrange(0, payload.len() - 1) =~= before);
        lemma_free_doubled(kind, front, before);
        let now = front + relay::doubled(before);
        assert(payload =~= before.push(byte));
        if byte == ESC {
            lemma_free_push_plain(kind, now, ESC);
            lemma_free_push_plain(kind, now.push(ESC), ESC);
            assert(front + relay::doubled(payload) =~= now.push(ESC).push(ESC));
            csi::lemma_last_escape(now.push(ESC).push(ESC));
            csi::lemma_last_escape(payload);
            assert(now.push(ESC).push(ESC)[(now.len() + 1) as int] == ESC);
            assert(payload[payload.len() - 1] == ESC);
            assert(now.push(ESC).push(ESC).skip((now.len() + 1) as int) =~= seq![ESC]);
            assert(payload.skip(payload.len() - 1) =~= seq![ESC]);
        } else {
            lemma_free_push(kind, now, before, byte);
            assert(front + relay::doubled(payload) =~= now.push(byte));
        }
    }
}

/// A whole passthrough.
proof fn lemma_free_wrapped(kind: Dropped, front: Seq<u8>, payload: Seq<u8>)
    requires
        dropping::is_free_of(kind, front),
        dropping::is_free_of(kind, payload),
    ensures
        dropping::is_free_of(kind, front + relay::tmux_wrapped(payload)),
        last_sequence(front + relay::tmux_wrapped(payload)) is None,
{
    let start = relay::TMUX_START@;
    let a = front.push(ESC);
    let b = a.push(start[1]);
    let c = b.push(start[2]);
    let d = c.push(start[3]);
    let e = d.push(start[4]);
    let f = e.push(start[5]);
    let g = f.push(start[6]);
    lemma_free_push_plain(kind, front, ESC);
    lemma_free_push_plain(kind, a, start[1]);
    lemma_free_push_plain(kind, b, start[2]);
    lemma_free_push_plain(kind, c, start[3]);
    lemma_free_push_plain(kind, d, start[4]);
    lemma_free_push_plain(kind, e, start[5]);
    lemma_free_push_plain(kind, f, start[6]);
    assert(g =~= front + start);
    lemma_free_doubled(kind, g, payload);
    let h = g + relay::doubled(payload);
    lemma_free_push_plain(kind, h, ESC);
    lemma_free_push_plain(kind, h.push(ESC), BACKSLASH);
    assert(relay::TMUX_END@ =~= seq![ESC, BACKSLASH]);
    assert(front + relay::tmux_wrapped(payload) =~= h.push(ESC).push(BACKSLASH));
}

/// Where no sequence of a kind stands in a stream, none stands in it after the
/// listed OSCs have been relayed.
pub proof fn relaying_makes_no_sequence(kind: Dropped, rule: WrapListed, data: Seq<u8>)
    requires
        dropping::is_free_of(kind, data),
    ensures
        dropping::is_free_of(
            kind,
            model::feed(osc::osc_step(rule), seq![], data).1 + model::feed(
                osc::osc_step(rule),
                seq![],
                data,
            ).0,
        ),
{
    lemma_relaying(kind, rule, data);
}

proof fn lemma_relaying(kind: Dropped, rule: WrapListed, data: Seq<u8>)
    requires
        dropping::is_free_of(kind, data),
    ensures
        ({
            let (held, out) = model::feed(osc::osc_step(rule), seq![], data);
            dropping::is_free_of(kind, out + held) && goes_on_like(out + held, data)
        }),
    decreases data.len(),
{
    let step = osc::osc_step(rule);
    let none = Seq::<u8>::empty();
    if data.len() == 0 {
        assert(data =~= none);
        assert(none + none =~= none);
    } else {
        let before = data.drop_last();
        let byte = data.last();
        assert(data =~= before.push(byte));
        lemma_free_part(kind, data, 0, data.len() - 1);
        assert(data.subrange(0, data.len() - 1) =~= before);
        lemma_relaying(kind, rule, before);
        let (held, out) = model::feed(step, seq![], before);
        let now = out + held;
        lemma_free_push(kind, now, before, byte);
        let seen = held.push(byte);
        let osc = osc::sequence_of(seen);
        let lone = osc::lone_escapes(seen);
        assert(out + seen =~= now.push(byte));
        let (next, more) = step(held, byte);
        if osc::is_partial_osc(seen) {
            assert((out + none) + seen =~= now.push(byte));
        } else if osc::is_osc_start(osc) {
            osc::lemma_escapes_of(seen);
            assert(lone + osc =~= seen);
            let rendered = rule.rendering(osc::osc_code(osc), osc);
            let all = now.push(byte);
            let from = (out.len() + lone.len()) as int;
            assert(all.subrange(from, all.len() as int) =~= osc);
            assert(all.subrange(0, from) =~= out + lone);
            lemma_free_part(kind, all, from, all.len() as int);
            lemma_free_part(kind, all, 0, from);
            if rendered == osc {
                assert((out + (lone + osc)) + none =~= all);
            } else {
                lemma_free_wrapped(kind, out + lone, osc);
                assert((out + (lone + rendered)) + none =~= (out + lone) + rendered);
            }
        } else {
            assert((out + seen) + none =~= now.push(byte));
        }
    }
}

/// Whether no title is left in `data`: it passes the title filter unchanged.
pub open spec fn is_free_of_titles(data: Seq<u8>) -> bool {
    let (held, out) = model::feed(osc::osc_step(DropTitles), seq![], data);
    out + held == data
}

proof fn lemma_subsequence_len(part: Seq<u8>, whole: Seq<u8>)
    requires
        model::is_subsequence(part, whole),
    ensures
        part.len() <= whole.len(),
    decreases whole.len(),
{
    if part.len() > 0 {
        if part.last() == whole.last() && model::is_subsequence(
            part.drop_last(),
            whole.drop_last(),
        ) {
            lemma_subsequence_len(part.drop_last(), whole.drop_last());
        } else {
            lemma_subsequence_len(part, whole.drop_last());
        }
    }
}

/// Where no title is left, none was met on the way.
proof fn lemma_free_of_titles(data: Seq<u8>)
    requires
        data.len() > 0,
        is_free_of_titles(data),
    ensures
        is_free_of_titles(data.drop_last()),
        ({
            let (held, _) = model::feed(osc::osc_step(DropTitles), seq![], data.drop_last());
            let (next, more) = osc::osc_step(DropTitles)(held, data.last());
            osc::is_partial_osc(held) && more + next == held.push(data.last())
        }),
{
    let step = osc::osc_step(DropTitles);
    let before = data.drop_last();
    let byte = data.last();
    let (held, out) = model::feed(step, seq![], before);
    let (next, more) = step(held, byte);
    let seen = held.push(byte);
    let none = Seq::<u8>::empty();
    assert(osc::keeps_or_drops(DropTitles));
    osc::filtering_twice_is_filtering_once(DropTitles, before);
    lemma_subsequence_len(out + held, before);
    osc::lemma_escapes_of(seen);
    if osc::is_partial_osc(seen) {
        assert(none + seen =~= seen);
    } else {
        assert(seen + none =~= seen);
        if osc::is_osc_start(osc::sequence_of(seen)) {
            let rendered = DropTitles.rendering(
                osc::osc_code(osc::sequence_of(seen)),
                osc::sequence_of(seen),
            );
            if rendered.len() == 0 {
                assert((out + none) + osc::lone_escapes(seen) == data);
            }
        }
    }
    assert((out + more) + next =~= out + (more + next));
    assert(out + seen =~= (out + held).push(byte));
    assert((out + held).push(byte).drop_last() =~= out + held);
    assert(data.drop_last() =~= out + held);
}

proof fn lemma_doubled_both(a: Seq<u8>, b: Seq<u8>)
    ensures
        relay::doubled(a + b) == relay::doubled(a) + relay::doubled(b),
    decreases b.len(),
{
    if b.len() == 0 {
        assert(a + b =~= a);
        assert(relay::doubled(a) + relay::doubled(b) =~= relay::doubled(a));
    } else {
        lemma_doubled_both(a, b.drop_last());
        assert((a + b).drop_last() =~= a + b.drop_last());
        assert(relay::doubled(a + b) =~= relay::doubled(a) + relay::doubled(b));
    }
}

proof fn lemma_doubled_plain(bytes: Seq<u8>)
    requires
        forall|i: int| 0 <= i < bytes.len() ==> bytes[i] != ESC,
    ensures
        relay::doubled(bytes) == bytes,
    decreases bytes.len(),
{
    if bytes.len() > 0 {
        lemma_doubled_plain(bytes.drop_last());
        assert(relay::doubled(bytes) =~= bytes);
    } else {
        assert(bytes =~= seq![]);
    }
}

/// Doubling its ESCs neither ends an OSC nor keeps it from ending.
proof fn lemma_doubled_phase(body: Seq<u8>)
    ensures
        osc::osc_phase(relay::doubled(body)) == osc::osc_phase(body),
    decreases body.len(),
{
    if body.len() > 0 {
        let before = relay::doubled(body.drop_last());
        lemma_doubled_phase(body.drop_last());
        reveal_with_fuel(osc::osc_phase, 3);
        if body.last() == ESC {
            let one = before.push(ESC);
            let two = one.push(ESC);
            assert(relay::doubled(body) =~= two);
            assert(two.drop_last() =~= one);
            assert(one.drop_last() =~= before);
        } else {
            let one = before.push(body.last());
            assert(relay::doubled(body) =~= one);
            assert(one.drop_last() =~= before);
        }
    }
}

/// The first field of an OSC whose field is a number, with its ESCs doubled: the
/// same, or no number.
proof fn lemma_doubled_code(text: Seq<u8>, tail: Seq<u8>)
    requires
        tail.len() == 0 || tail == seq![ESC],
        bytes::field_at(text, 0).len() > 0,
        bytes::all_digits(bytes::field_at(text, 0)),
    ensures
        ({
            let field = bytes::field_at(relay::doubled(text) + tail, 0);
            field == bytes::field_at(text, 0) || !bytes::all_digits(field)
        }),
{
    let field = bytes::field_at(text, 0);
    let end = bytes::field_end(text, 0);
    bytes::lemma_field_end(text, 0);
    let rest = text.skip(end);
    let all = relay::doubled(text) + tail;
    assert forall|i: int| 0 <= i < field.len() implies field[i] != ESC && field[i]
        != bytes::SEMICOLON by {
        assert(bytes::is_digit(field[i]));
    }
    assert(text =~= field + rest);
    lemma_doubled_both(field, rest);
    lemma_doubled_plain(field);
    let behind = relay::doubled(rest) + tail;
    assert(all =~= field + behind);
    if rest.len() > 0 {
        assert(rest[0] == bytes::SEMICOLON);
        assert(seq![rest[0]] + rest.skip(1) =~= rest);
        lemma_doubled_both(seq![rest[0]], rest.skip(1));
        assert(seq![rest[0]].drop_last() =~= seq![]);
        assert(relay::doubled(seq![rest[0]]) =~= seq![rest[0]]) by {
            lemma_doubled_plain(seq![rest[0]]);
        }
        assert(behind[0] == bytes::SEMICOLON);
        assert forall|i: int| 0 <= i < end implies all[i] != bytes::SEMICOLON by {
            assert(all[i] == field[i]);
        }
        assert(all[end] == behind[0]);
        bytes::lemma_field_end_unique(all, 0, end);
        assert(bytes::field_at(all, 0) =~= field);
    } else {
        assert(relay::doubled(rest) =~= seq![]);
        assert(behind =~= tail);
        assert forall|i: int| 0 <= i < all.len() implies all[i] != bytes::SEMICOLON by {
            if i < field.len() {
                assert(all[i] == field[i]);
            }
        }
        bytes::lemma_field_end_unique(all, 0, all.len() as int);
        assert(bytes::field_at(all, 0) =~= all);
        if tail.len() == 0 {
            assert(all =~= field);
        } else {
            assert(all[field.len() as int] == ESC);
            assert(!bytes::is_digit(all[field.len() as int]));
        }
    }
}

/// An OSC with its ESCs doubled is an OSC behind an ESC, and is no title unless
/// the OSC is.
proof fn lemma_doubled_osc(sequence: Seq<u8>)
    requires
        osc::is_osc(sequence),
        osc::osc_code(sequence) is Some,
        osc::osc_code(sequence)->0 > 2,
    ensures
        model::feed(osc::osc_step(DropTitles), seq![], relay::doubled(sequence)) == (
            Seq::<u8>::empty(),
            relay::doubled(sequence),
        ),
{
    let head = seq![ESC, bytes::CLOSE_BRACKET];
    let body = sequence.skip(2);
    let inside = relay::doubled(body);
    let unit = relay::doubled(sequence);
    osc::lemma_osc_lengths(sequence);
    assert(sequence =~= head + body);
    lemma_doubled_both(head, body);
    assert(relay::doubled(head) =~= seq![ESC, ESC, bytes::CLOSE_BRACKET]) by {
        assert(head.drop_last() =~= seq![ESC]);
        assert(seq![ESC].drop_last() =~= seq![]);
        reveal_with_fuel(relay::doubled, 3);
    }
    let other = head + inside;
    assert(unit =~= seq![ESC] + other);
    lemma_doubled_phase(body);
    lemma_doubled_phase(body.drop_last());
    assert(body.last() == sequence.last());
    assert(inside =~= relay::doubled(body.drop_last()).push(body.last()));
    assert(inside.drop_last() =~= relay::doubled(body.drop_last()));
    assert(other.skip(2) =~= inside);
    assert(osc::is_osc(other));
    osc_laws::lemma_leading(unit, 2);
    assert(osc::lone_escapes(unit) =~= seq![ESC]);
    assert(osc::sequence_of(unit) =~= other);
    let text = osc::osc_body(sequence);
    if sequence.last() == bytes::BEL {
        assert(text =~= body.drop_last());
        assert(osc::osc_body(other) =~= relay::doubled(text) + Seq::<u8>::empty());
        lemma_doubled_code(text, seq![]);
    } else {
        let shorter = body.drop_last();
        assert(osc::osc_phase(shorter) is Escape);
        assert(shorter.len() > 0 && shorter.last() == ESC);
        assert(text =~= shorter.drop_last());
        assert(relay::doubled(shorter) =~= relay::doubled(text) + seq![ESC, ESC]);
        assert(osc::osc_body(other) =~= relay::doubled(text) + seq![ESC]);
        lemma_doubled_code(text, seq![ESC]);
    }
    assert(DropTitles.rendering(osc::osc_code(other), other) == other);
    assert(osc::is_unit(DropTitles, unit));
    osc::units_are_rendered(DropTitles, unit);
}

/// A passthrough, with ESCs in front, passes the title filter.
proof fn lemma_wrapped_passes(lone: Seq<u8>, sequence: Seq<u8>)
    requires
        forall|i: int| 0 <= i < lone.len() ==> lone[i] == ESC,
        osc::is_osc(sequence),
        osc::osc_code(sequence) is Some,
        osc::osc_code(sequence)->0 > 2,
    ensures
        model::feed(osc::osc_step(DropTitles), seq![], lone + relay::tmux_wrapped(sequence)) == (
            Seq::<u8>::empty(),
            lone + relay::tmux_wrapped(sequence),
        ),
{
    let step = osc::osc_step(DropTitles);
    let none = Seq::<u8>::empty();
    let start = relay::TMUX_START@;
    let first = lone + start.take(2);
    let name = start.skip(2);
    let inside = relay::doubled(sequence);
    let last = relay::TMUX_END@;
    osc_laws::lemma_leading(first, first.len() - 1);
    assert(first.last() == start[1]);
    assert(osc::is_unit(DropTitles, first));
    osc::units_are_rendered(DropTitles, first);
    assert(osc::sequence_of(first) =~= start.take(2));
    osc::plain_text_passes(DropTitles, name);
    lemma_doubled_osc(sequence);
    osc_laws::lemma_leading(last, 1);
    assert(osc::is_unit(DropTitles, last));
    osc::units_are_rendered(DropTitles, last);
    assert(osc::sequence_of(last) =~= last);
    model::lemma_feed_concat(step, none, first, name);
    model::lemma_feed_concat(step, none, first + name, inside);
    model::lemma_feed_concat(step, none, first + name + inside, last);
    assert(first + name + inside + last =~= lone + relay::tmux_wrapped(sequence));
}

proof fn lemma_relaying_titles(rule: WrapListed, data: Seq<u8>)
    requires
        is_free_of_titles(data),
    ensures
        ({
            let (held, out) = model::feed(osc::osc_step(rule), seq![], data);
            &&& held == model::feed(osc::osc_step(DropTitles), seq![], data).0
            &&& osc::is_partial_osc(held)
            &&& model::feed(osc::osc_step(DropTitles), seq![], out) == (Seq::<u8>::empty(), out)
        }),
    decreases data.len(),
{
    let titles = osc::osc_step(DropTitles);
    let relays = osc::osc_step(rule);
    let none = Seq::<u8>::empty();
    assert(osc::keeps_or_drops(DropTitles));
    osc::filtering_twice_is_filtering_once(DropTitles, data);
    if data.len() > 0 {
        let before = data.drop_last();
        let byte = data.last();
        lemma_free_of_titles(data);
        lemma_relaying_titles(rule, before);
        let (held, out) = model::feed(relays, seq![], before);
        let seen = held.push(byte);
        let sequence = osc::sequence_of(seen);
        let lone = osc::lone_escapes(seen);
        let (next, more) = relays(held, byte);
        osc::lemma_step_keeps(DropTitles, held, byte);
        osc::lemma_escapes_of(seen);
        assert(seen + none =~= seen);
        if !osc::is_partial_osc(seen) {
            if osc::is_osc_start(sequence) {
                osc::lemma_completed(held, byte);
                let (other, let_out) = titles(held, byte);
                let kept = DropTitles.rendering(osc::osc_code(sequence), sequence);
                if kept.len() == 0 {
                    osc::lemma_osc_lengths(sequence);
                    assert(let_out + other =~= lone);
                    assert(lone.len() < seen.len());
                }
                assert(kept == sequence);
                let rendered = rule.rendering(osc::osc_code(sequence), sequence);
                assert(rendered.len() > 0);
                if rendered != sequence {
                    lemma_wrapped_passes(lone, sequence);
                }
            }
        } else {
            assert(model::feed(titles, seq![], none) == (none, none));
        }
        assert(model::feed(titles, seq![], more) == (none, more));
        model::lemma_feed_concat(titles, none, out, more);
    }
}

/// Where no title stands in a stream, none stands in it after the listed OSCs
/// have been relayed.
pub proof fn relaying_makes_no_title(rule: WrapListed, data: Seq<u8>)
    requires
        is_free_of_titles(data),
    ensures
        is_free_of_titles(
            model::feed(osc::osc_step(rule), seq![], data).1 + model::feed(
                osc::osc_step(rule),
                seq![],
                data,
            ).0,
        ),
{
    let titles = osc::osc_step(DropTitles);
    let (held, out) = model::feed(osc::osc_step(rule), seq![], data);
    lemma_relaying_titles(rule, data);
    osc::lemma_tail_is_held(DropTitles, held);
    model::lemma_feed_concat(titles, seq![], out, held);
    assert(out + Seq::<u8>::empty() =~= out);
}

} // verus!
