//! The shape of control sequences.
use vstd::prelude::*;

use crate::bytes::{BRACKET, ESC};

verus! {

/// Whether `byte` ends a CSI.
pub open spec fn is_csi_final(byte: u8) -> bool {
    0x40 <= byte <= 0x7e
}

/// Whether `bytes` starts with `ESC [`.
pub open spec fn is_csi_start(bytes: Seq<u8>) -> bool {
    bytes.len() >= 2 && bytes[0] == ESC && bytes[1] == BRACKET
}

/// The index after the first byte at or after `from` that ends a CSI.
pub open spec fn after_final(bytes: Seq<u8>, from: int) -> Option<int>
    decreases bytes.len() - from,
{
    if from < 0 || from >= bytes.len() {
        None
    } else if is_csi_final(bytes[from]) {
        Some(from + 1)
    } else {
        after_final(bytes, from + 1)
    }
}

/// The length of the CSI that `bytes` starts with, where it is complete.
pub open spec fn csi_len(bytes: Seq<u8>) -> Option<int> {
    if is_csi_start(bytes) {
        after_final(bytes, 2)
    } else {
        None
    }
}

/// Whether `bytes` is one CSI and nothing more.
pub open spec fn is_csi(bytes: Seq<u8>) -> bool {
    csi_len(bytes) == Some(bytes.len() as int)
}

/// Whether `bytes` starts a CSI that it does not complete.
pub open spec fn is_open_csi(bytes: Seq<u8>) -> bool {
    is_csi_start(bytes) && csi_len(bytes) is None
}

/// The final byte found, by index.
pub proof fn lemma_after_final(bytes: Seq<u8>, from: int)
    requires
        0 <= from,
    ensures
        match after_final(bytes, from) {
            Some(end) => {
                &&& from < end <= bytes.len()
                &&& is_csi_final(bytes[end - 1])
                &&& forall|i: int| from <= i < end - 1 ==> !is_csi_final(#[trigger] bytes[i])
            },
            None => forall|i: int| from <= i < bytes.len() ==> !is_csi_final(#[trigger] bytes[i]),
        },
    decreases bytes.len() - from,
{
    if from < bytes.len() && !is_csi_final(bytes[from]) {
        lemma_after_final(bytes, from + 1);
    }
}

/// More bytes leave a final byte that was found where it is; where none was
/// found, the next byte may be it.
pub proof fn lemma_after_final_push(bytes: Seq<u8>, from: int, byte: u8)
    requires
        0 <= from <= bytes.len(),
    ensures
        after_final(bytes.push(byte), from) == match after_final(bytes, from) {
            Some(end) => Some(end),
            None => if is_csi_final(byte) {
                Some((bytes.len() + 1) as int)
            } else {
                None
            },
        },
    decreases bytes.len() - from,
{
    if from < bytes.len() {
        assert(bytes.push(byte)[from] == bytes[from]);
        if !is_csi_final(bytes[from]) {
            lemma_after_final_push(bytes, from + 1, byte);
        }
    } else {
        assert(bytes.push(byte)[from] == byte);
        assert(after_final(bytes.push(byte), from + 1) is None);
    }
}

/// Until its final byte a CSI is open.
pub proof fn lemma_prefix_is_open(bytes: Seq<u8>, len: int)
    requires
        is_csi(bytes),
        2 <= len < bytes.len(),
    ensures
        is_open_csi(bytes.take(len)),
{
    let prefix = bytes.take(len);
    lemma_after_final(bytes, 2);
    lemma_after_final(prefix, 2);
    match after_final(prefix, 2) {
        Some(end) => {
            assert(prefix[end - 1] == bytes[end - 1]);
            assert(false);
        },
        None => {},
    }
}

/// A CSI that is open was open before.
pub proof fn lemma_prefix_of_open(bytes: Seq<u8>, len: int)
    requires
        is_open_csi(bytes),
        2 <= len <= bytes.len(),
    ensures
        is_open_csi(bytes.take(len)),
{
    let prefix = bytes.take(len);
    lemma_after_final(bytes, 2);
    lemma_after_final(prefix, 2);
    match after_final(prefix, 2) {
        Some(end) => {
            assert(prefix[end - 1] == bytes[end - 1]);
            assert(false);
        },
        None => {},
    }
}

/// The index of the last ESC in `bytes`, or -1.
pub open spec fn last_escape(bytes: Seq<u8>) -> int
    decreases bytes.len(),
{
    if bytes.len() == 0 {
        -1
    } else if bytes.last() == ESC {
        bytes.len() - 1
    } else {
        last_escape(bytes.drop_last())
    }
}

/// The last ESC, by index.
pub proof fn lemma_last_escape(bytes: Seq<u8>)
    ensures
        -1 <= last_escape(bytes) < bytes.len(),
        last_escape(bytes) >= 0 ==> bytes[last_escape(bytes)] == ESC,
        forall|i: int| last_escape(bytes) < i < bytes.len() ==> bytes[i] != ESC,
    decreases bytes.len(),
{
    if bytes.len() > 0 && bytes.last() != ESC {
        lemma_last_escape(bytes.drop_last());
        assert forall|i: int| last_escape(bytes) < i < bytes.len() implies bytes[i] != ESC by {
            if i < bytes.len() - 1 {
                assert(bytes.drop_last()[i] == bytes[i]);
            }
        }
    }
}

/// An ESC that no other follows is the last one.
pub proof fn lemma_is_last_escape(bytes: Seq<u8>, at: int)
    requires
        0 <= at < bytes.len(),
        bytes[at] == ESC,
        forall|i: int| at < i < bytes.len() ==> bytes[i] != ESC,
    ensures
        last_escape(bytes) == at,
{
    lemma_last_escape(bytes);
}

/// Finds the last ESC.
pub fn find_last_escape(bytes: &[u8]) -> (at: Option<usize>)
    ensures
        match at {
            Some(at) => at == last_escape(bytes@) && at < bytes@.len(),
            None => last_escape(bytes@) == -1,
        },
{
    let mut end: usize = bytes.len();
    assert(bytes@.take(end as int) =~= bytes@);
    while end > 0
        invariant
            end <= bytes@.len(),
            last_escape(bytes@) == last_escape(bytes@.take(end as int)),
        decreases end,
    {
        assert(bytes@.take(end as int).drop_last() =~= bytes@.take(end - 1));
        end -= 1;
        if bytes[end] == ESC {
            return Some(end);
        }
    }
    None
}

/// The index after the CSI that starts at `index`, where there is one that is
/// complete.
pub fn skip_csi(data: &[u8], index: usize) -> (end: Option<usize>)
    ensures
        if index <= data@.len() && csi_len(data@.skip(index as int)) is Some {
            end is Some && end->0 == index + csi_len(data@.skip(index as int))->0
        } else {
            end is None
        },
{
    if index > data.len() {
        return None;
    }
    let ghost rest = data@.skip(index as int);
    if data.len() - index < 2 || data[index] != ESC || data[index + 1] != BRACKET {
        return None;
    }
    let mut at: usize = index + 2;
    while at < data.len()
        invariant
            rest == data@.skip(index as int),
            is_csi_start(rest),
            index + 2 <= at <= data@.len(),
            after_final(rest, 2) == after_final(rest, at - index),
        decreases data@.len() - at,
    {
        assert(rest[at - index] == data@[at as int]);
        if 0x40 <= data[at] && data[at] <= 0x7e {
            return Some(at + 1);
        }
        at += 1;
    }
    None
}

} // verus!
