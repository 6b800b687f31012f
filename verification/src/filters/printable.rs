//! The text that a terminal prints of some bytes.
use vstd::prelude::*;

use crate::bytes::{utf8_text, CR, DEL, ESC, LF, SPACE};
use crate::filters::csi::{self, skip_csi};

verus! {

/// The text that a terminal prints of `data`: without cursor movements, which
/// are carriage returns, line feeds and CSIs. `None` where `data` holds
/// another control character, an incomplete CSI or bytes that are not UTF-8.
pub open spec fn printable_text(data: Seq<u8>) -> Option<Seq<char>>
    decreases data.len(),
    via printable_text_decreases
{
    if data.len() == 0 {
        Some(seq![])
    } else if data[0] == CR || data[0] == LF {
        printable_text(data.skip(1))
    } else if data[0] == ESC {
        match csi::csi_len(data) {
            Some(len) => printable_text(data.skip(len)),
            None => None,
        }
    } else if data[0] < SPACE || data[0] == DEL {
        None
    } else if !vstd::utf8::valid_utf8(data) {
        None
    } else {
        match printable_text(vstd::utf8::pop_first_scalar(data)) {
            Some(rest) => Some(seq![vstd::utf8::decode_first_scalar(data) as char] + rest),
            None => None,
        }
    }
}

#[via_fn]
proof fn printable_text_decreases(data: Seq<u8>) {
    if data.len() > 0 {
        csi::lemma_after_final(data, 2);
    }
}

/// The length of the first character of valid UTF-8, from its first byte.
fn first_char_len(data: &[u8]) -> (len: usize)
    requires
        data@.len() > 0,
        vstd::utf8::valid_utf8(data@),
    ensures
        len == vstd::utf8::length_of_first_scalar(data@),
        0 < len <= data@.len(),
{
    let first: u8 = data[0];
    if first < 0x80 {
        1
    } else if first < 0xe0 {
        2
    } else if first < 0xf0 {
        3
    } else {
        4
    }
}

/// Reads the text that a terminal prints of `data`.
pub fn printable_text_without_cursor_moves(data: &[u8]) -> (text: Option<String>)
    ensures
        match printable_text(data@) {
            Some(expected) => text is Some && text->0@ == expected,
            None => text is None,
        },
{
    let mut text: String = String::new();
    let mut index: usize = 0;
    assert(data@.skip(0) =~= data@);
    proof {
        match printable_text(data@) {
            Some(rest) => {
                assert(text@ + rest =~= rest);
            },
            None => {},
        }
    }
    while index < data.len()
        invariant
            index <= data@.len(),
            printable_text(data@) == match printable_text(data@.skip(index as int)) {
                Some(rest) => Some(text@ + rest),
                None => None,
            },
        decreases data@.len() - index,
    {
        let ghost left = data@.skip(index as int);
        let byte: u8 = data[index];
        assert(left[0] == byte);
        if byte == CR || byte == LF {
            assert(left.skip(1) =~= data@.skip(index + 1));
            index += 1;
        } else if byte == ESC {
            proof {
                csi::lemma_after_final(left, 2);
            }
            let end: usize = match skip_csi(data, index) {
                Some(end) => end,
                None => return None,
            };
            assert(left.skip(end - index) =~= data@.skip(end as int));
            index = end;
        } else if byte < SPACE || byte == DEL {
            return None;
        } else {
            let rest = &data[index..data.len()];
            assert(rest@ =~= left);
            if utf8_text(rest).is_none() {
                return None;
            }
            let len: usize = first_char_len(rest);
            let first = &rest[0..len];
            let ghost before = text@;
            let ghost c = vstd::utf8::decode_first_scalar(left) as char;
            proof {
                lemma_first_char(left, len as int);
                assert(first@ =~= left.take(len as int));
            }
            match utf8_text(first) {
                Some(ch) => text.append(ch),
                None => return None,
            }
            proof {
                assert(left.skip(len as int) =~= data@.skip(index + len));
                assert(vstd::utf8::pop_first_scalar(left) =~= left.skip(len as int));
                match printable_text(left.skip(len as int)) {
                    Some(rest) => {
                        assert(before + (seq![c] + rest) =~= text@ + rest);
                    },
                    None => {},
                }
            }
            index += len;
        }
    }
    assert(data@.skip(index as int) =~= seq![]);
    assert(text@ + Seq::<char>::empty() =~= text@);
    Some(text)
}

/// The first character of valid UTF-8, taken by itself.
proof fn lemma_first_char(data: Seq<u8>, len: int)
    requires
        data.len() > 0,
        vstd::utf8::valid_utf8(data),
        len == vstd::utf8::length_of_first_scalar(data),
    ensures
        vstd::utf8::valid_utf8(data.take(len)),
        vstd::utf8::decode_utf8(data.take(len)) == seq![
            vstd::utf8::decode_first_scalar(data) as char,
        ],
{
    let first = data.take(len);
    assert(vstd::utf8::valid_first_scalar(first));
    assert(vstd::utf8::pop_first_scalar(first) =~= seq![]);
    assert(vstd::utf8::valid_utf8(seq![]));
    assert(vstd::utf8::decode_utf8(seq![]) =~= seq![]);
    assert(vstd::utf8::decode_utf8(first) =~= seq![
        vstd::utf8::decode_first_scalar(data) as char,
    ]);
}

/// Whether `bytes` is UTF-8 text without control characters.
pub open spec fn is_plain_text(bytes: Seq<u8>) -> bool {
    &&& vstd::utf8::valid_utf8(bytes)
    &&& forall|i: int| 0 <= i < bytes.len() ==> SPACE <= (#[trigger] bytes[i]) && bytes[i] != DEL
}

/// All of a plain text is printed.
pub proof fn plain_text_is_printable(bytes: Seq<u8>)
    requires
        is_plain_text(bytes),
    ensures
        printable_text(bytes) == Some(vstd::utf8::decode_utf8(bytes)),
    decreases bytes.len(),
{
    if bytes.len() > 0 {
        let rest = vstd::utf8::pop_first_scalar(bytes);
        let len = vstd::utf8::length_of_first_scalar(bytes);
        assert forall|i: int| 0 <= i < rest.len() implies SPACE <= (#[trigger] rest[i]) && rest[i]
            != DEL by {
            assert(rest[i] == bytes[i + len]);
        }
        plain_text_is_printable(rest);
        assert(SPACE <= bytes[0]);
    }
}

/// Whether `bytes` moves the cursor: a carriage return, a line feed, or
/// `ESC [`, bytes below `@`, and a final byte.
pub open spec fn is_move(bytes: Seq<u8>) -> bool {
    ||| bytes == seq![0x0du8]
    ||| bytes == seq![0x0au8]
    ||| {
        &&& bytes.len() >= 3
        &&& bytes[0] == 0x1b
        &&& bytes[1] == '[' as u8
        &&& forall|i: int| 2 <= i < bytes.len() - 1 ==> (#[trigger] bytes[i]) < 0x40
        &&& 0x40 <= bytes.last() <= 0x7e
    }
}

/// A movement prints nothing, whatever follows it.
pub proof fn moves_print_nothing(bytes: Seq<u8>, rest: Seq<u8>)
    requires
        is_move(bytes),
    ensures
        printable_text(bytes + rest) == printable_text(rest),
{
    let all = bytes + rest;
    assert(all[0] == bytes[0]);
    if bytes.len() == 1 {
        assert(all.skip(1) =~= rest);
    } else {
        let len = bytes.len() as int;
        csi::lemma_after_final(all, 2);
        assert(csi::is_csi_final(all[len - 1])) by {
            assert(all[len - 1] == bytes.last());
        }
        assert forall|i: int| 2 <= i < len - 1 implies !csi::is_csi_final(#[trigger] all[i]) by {
            assert(all[i] == bytes[i]);
        }
        match csi::after_final(all, 2) {
            Some(end) => {
                assert(csi::is_csi_final(all[end - 1]));
                assert(end == len);
            },
            None => {},
        }
        assert(all[1] == bytes[1]);
        assert(all.skip(len) =~= rest);
    }
}

/// Text without control characters is printed, in front of whatever follows it.
pub proof fn text_is_printed(text: Seq<u8>, rest: Seq<u8>)
    requires
        is_plain_text(text),
        vstd::utf8::valid_utf8(text + rest),
    ensures
        printable_text(text + rest) == match printable_text(rest) {
            Some(others) => Some(vstd::utf8::decode_utf8(text) + others),
            None => None,
        },
    decreases text.len(),
{
    let all = text + rest;
    if text.len() == 0 {
        assert(all =~= rest);
        match printable_text(rest) {
            Some(others) => {
                assert(vstd::utf8::decode_utf8(text) + others =~= others);
            },
            None => {},
        }
    } else {
        let len = vstd::utf8::length_of_first_scalar(text);
        let tail = vstd::utf8::pop_first_scalar(text);
        assert(all[0] == text[0]);
        assert(SPACE <= text[0] && text[0] != DEL);
        assert(len >= 2 ==> all[1] == text[1]);
        assert(len >= 3 ==> all[2] == text[2]);
        assert(len >= 4 ==> all[3] == text[3]);
        assert(vstd::utf8::length_of_first_scalar(all) == len);
        assert(vstd::utf8::decode_first_scalar(all) == vstd::utf8::decode_first_scalar(text));
        assert(vstd::utf8::pop_first_scalar(all) =~= tail + rest);
        assert forall|i: int| 0 <= i < tail.len() implies SPACE <= (#[trigger] tail[i]) && tail[i]
            != DEL by {
            assert(tail[i] == text[i + len]);
        }
        text_is_printed(tail, rest);
        let first = seq![vstd::utf8::decode_first_scalar(text) as char];
        match printable_text(rest) {
            Some(others) => {
                assert(first + (vstd::utf8::decode_utf8(tail) + others)
                    =~= vstd::utf8::decode_utf8(text) + others);
            },
            None => {},
        }
    }
}

/// Other control characters make a text that cannot be printed, and so does an
/// escape that is no complete CSI.
pub proof fn other_controls_are_not_printed(data: Seq<u8>)
    requires
        data.len() > 0,
        data[0] < 0x20 || data[0] == 0x7f,
        data[0] != 0x0d,
        data[0] != 0x0a,
        data[0] == 0x1b ==> data.len() < 3 || data[1] != '[' as u8 || forall|i: int|
            2 <= i < data.len() ==> !(0x40 <= #[trigger] data[i] && data[i] <= 0x7e),
    ensures
        printable_text(data) is None,
{
    if data[0] == 0x1b {
        csi::lemma_after_final(data, 2);
    }
}

} // verus!
