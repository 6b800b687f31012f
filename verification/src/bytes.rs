//! Bytes of the terminal protocol, searching and decimal numbers.
use vstd::prelude::*;

verus! {

/// Bell, which ends an OSC.
pub const BEL: u8 = 0x07;

/// Line feed.
pub const LF: u8 = 0x0a;

/// Carriage return, which is what the Enter key sends.
pub const CR: u8 = 0x0d;

/// Escape, which starts every control sequence.
pub const ESC: u8 = 0x1b;

/// Space.
pub const SPACE: u8 = 0x20;

/// `+`.
pub const PLUS: u8 = 0x2b;

/// `/`.
pub const SLASH: u8 = 0x2f;

/// `0`.
pub const ZERO: u8 = 0x30;

/// `9`.
pub const NINE: u8 = 0x39;

/// `:`.
pub const COLON: u8 = 0x3a;

/// `;`.
pub const SEMICOLON: u8 = 0x3b;

/// `<`, which starts the body of an SGR mouse report.
pub const LESS_THAN: u8 = 0x3c;

/// `M`, which ends the report of a press or of a motion.
pub const UPPER_M: u8 = 0x4d;

/// `[`, the second byte of a CSI.
pub const BRACKET: u8 = 0x5b;

/// `\`, the second byte of a string terminator.
pub const BACKSLASH: u8 = 0x5c;

/// `]`, the second byte of an OSC.
pub const CLOSE_BRACKET: u8 = 0x5d;

/// `m`, the final byte of an SGR and of the report of a release.
pub const LOWER_M: u8 = 0x6d;

/// `q`, the final byte of a DECSCUSR.
pub const LOWER_Q: u8 = 0x71;

/// Delete.
pub const DEL: u8 = 0x7f;

/// Whether `byte` is a decimal digit.
pub open spec fn is_digit(byte: u8) -> bool {
    ZERO <= byte <= NINE
}

/// Whether `bytes` holds nothing but decimal digits.
pub open spec fn all_digits(bytes: Seq<u8>) -> bool {
    forall|i: int| 0 <= i < bytes.len() ==> is_digit(#[trigger] bytes[i])
}

/// The number that `digits` writes in decimal.
pub open spec fn decimal(digits: Seq<u8>) -> nat
    decreases digits.len(),
{
    if digits.len() == 0 {
        0
    } else {
        decimal(digits.drop_last()) * 10 + (digits.last() - ZERO) as nat
    }
}

/// The number that `digits` writes, where it fits.
pub open spec fn decimal_u16(digits: Seq<u8>) -> Option<u16> {
    if decimal(digits) <= u16::MAX {
        Some(decimal(digits) as u16)
    } else {
        None
    }
}

/// Whether `needle` stands in `haystack` at `at`.
pub open spec fn occurs_at(haystack: Seq<u8>, needle: Seq<u8>, at: int) -> bool {
    &&& 0 <= at
    &&& at + needle.len() <= haystack.len()
    &&& haystack.subrange(at, at + needle.len()) == needle
}

/// Whether `needle` stands anywhere in `haystack`.
pub open spec fn occurs(haystack: Seq<u8>, needle: Seq<u8>) -> bool {
    exists|at: int| occurs_at(haystack, needle, at)
}

/// The end of the field of `bytes` that starts at `from`: the first `;` at or
/// after it, or the end of `bytes`.
pub open spec fn field_end(bytes: Seq<u8>, from: int) -> int
    decreases bytes.len() - from,
{
    if from < 0 || from >= bytes.len() || bytes[from] == SEMICOLON {
        from
    } else {
        field_end(bytes, from + 1)
    }
}

/// The field of `bytes` that starts at `from`.
pub open spec fn field_at(bytes: Seq<u8>, from: int) -> Seq<u8> {
    bytes.subrange(from, field_end(bytes, from))
}

/// `memchr::memchr`: the index of the first byte of `haystack` that equals
/// `needle`, and `None` where no byte does.
pub assume_specification[ memchr::memchr ](needle: u8, haystack: &[u8]) -> (found: Option<usize>)
    ensures
        match found {
            Some(at) => {
                &&& at < haystack@.len()
                &&& haystack@[at as int] == needle
                &&& forall|i: int| 0 <= i < at ==> haystack@[i] != needle
            },
            None => forall|i: int| 0 <= i < haystack@.len() ==> haystack@[i] != needle,
        },
;

/// `memchr::memmem::find`: the index of the first occurrence of `needle` in
/// `haystack`, and `None` where there is no occurrence.
pub assume_specification[ memchr::memmem::find ](haystack: &[u8], needle: &[u8]) -> (found: Option<
    usize,
>)
    ensures
        match found {
            Some(at) => {
                &&& occurs_at(haystack@, needle@, at as int)
                &&& forall|i: int| 0 <= i < at ==> !occurs_at(haystack@, needle@, i)
            },
            None => !occurs(haystack@, needle@),
        },
;

/// `std::str::from_utf8`: the text that `bytes` encodes, and `None` where they
/// are not valid UTF-8.
#[verifier::external_body]
pub(crate) fn utf8_text(bytes: &[u8]) -> (text: Option<&str>)
    ensures
        match text {
            Some(text) => vstd::utf8::valid_utf8(bytes@) && text@ == vstd::utf8::decode_utf8(
                bytes@,
            ),
            None => !vstd::utf8::valid_utf8(bytes@),
        },
{
    std::str::from_utf8(bytes).ok()
}

/// Whether `data` begins with `prefix`.
pub fn starts_with(data: &[u8], prefix: &[u8]) -> (yes: bool)
    ensures
        yes == prefix@.is_prefix_of(data@),
{
    if data.len() < prefix.len() {
        return false;
    }
    let mut i: usize = 0;
    while i < prefix.len()
        invariant
            i <= prefix@.len() <= data@.len(),
            forall|j: int| 0 <= j < i ==> data@[j] == prefix@[j],
        decreases prefix@.len() - i,
    {
        if data[i] != prefix[i] {
            return false;
        }
        i += 1;
    }
    true
}

/// Whether two slices hold the same bytes.
pub fn same_bytes(a: &[u8], b: &[u8]) -> (yes: bool)
    ensures
        yes == (a@ == b@),
{
    if a.len() != b.len() {
        return false;
    }
    let yes = starts_with(a, b);
    assert(yes ==> a@ =~= b@);
    yes
}

/// Whether `bytes` holds nothing but decimal digits.
pub fn digits_only(bytes: &[u8]) -> (yes: bool)
    ensures
        yes == all_digits(bytes@),
{
    let mut i: usize = 0;
    while i < bytes.len()
        invariant
            i <= bytes@.len(),
            forall|j: int| 0 <= j < i ==> is_digit(bytes@[j]),
        decreases bytes@.len() - i,
    {
        if bytes[i] < ZERO || bytes[i] > NINE {
            assert(!is_digit(bytes@[i as int]));
            return false;
        }
        i += 1;
    }
    true
}

/// The end of a field, by index.
pub proof fn lemma_field_end(bytes: Seq<u8>, from: int)
    requires
        0 <= from <= bytes.len(),
    ensures
        from <= field_end(bytes, from) <= bytes.len(),
        forall|i: int| from <= i < field_end(bytes, from) ==> bytes[i] != SEMICOLON,
        field_end(bytes, from) < bytes.len() ==> bytes[field_end(bytes, from)] == SEMICOLON,
    decreases bytes.len() - from,
{
    if from < bytes.len() && bytes[from] != SEMICOLON {
        lemma_field_end(bytes, from + 1);
    }
}

pub proof fn lemma_field_end_unique(bytes: Seq<u8>, from: int, end: int)
    requires
        0 <= from <= end <= bytes.len(),
        forall|i: int| from <= i < end ==> bytes[i] != SEMICOLON,
        end < bytes.len() ==> bytes[end] == SEMICOLON,
    ensures
        field_end(bytes, from) == end,
    decreases end - from,
{
    if from < end {
        lemma_field_end_unique(bytes, from + 1, end);
    }
}

/// Finds the end of the field that starts at `from`.
pub fn find_field_end(bytes: &[u8], from: usize) -> (end: usize)
    requires
        from <= bytes@.len(),
    ensures
        end == field_end(bytes@, from as int),
        from <= end <= bytes@.len(),
{
    let rest = &bytes[from..bytes.len()];
    let len: usize = match memchr::memchr(SEMICOLON, rest) {
        Some(at) => at,
        None => rest.len(),
    };
    proof {
        assert forall|i: int| from <= i < from + len implies bytes@[i] != SEMICOLON by {
            assert(rest@[i - from] == bytes@[i]);
        }
        lemma_field_end_unique(bytes@, from as int, from + len);
    }
    from + len
}

/// More digits never write a smaller number.
proof fn lemma_decimal_grows(digits: Seq<u8>, len: int)
    requires
        0 <= len <= digits.len(),
    ensures
        decimal(digits.take(len)) <= decimal(digits),
    decreases digits.len() - len,
{
    if len == digits.len() {
        assert(digits.take(len) =~= digits);
    } else {
        lemma_decimal_grows(digits, len + 1);
        assert(digits.take(len + 1).drop_last() =~= digits.take(len));
    }
}

/// Reads a decimal number; `None` where it does not fit.
pub fn parse_decimal(digits: &[u8]) -> (number: Option<u16>)
    requires
        all_digits(digits@),
    ensures
        number == decimal_u16(digits@),
{
    let mut value: u32 = 0;
    let mut i: usize = 0;
    while i < digits.len()
        invariant
            i <= digits@.len(),
            all_digits(digits@),
            value == decimal(digits@.take(i as int)),
            value <= u16::MAX,
        decreases digits@.len() - i,
    {
        let digit: u8 = digits[i];
        assert(is_digit(digits@[i as int]));
        proof {
            assert(digits@.take(i + 1).drop_last() =~= digits@.take(i as int));
            lemma_decimal_grows(digits@, i + 1);
        }
        value = value * 10 + (digit - ZERO) as u32;
        if value > 0xffff {
            return None;
        }
        i += 1;
    }
    assert(digits@.take(i as int) =~= digits@);
    Some(value as u16)
}

/// `value` written in decimal, without leading zeros.
pub open spec fn decimal_bytes(value: nat) -> Seq<u8>
    decreases value,
{
    if value < 10 {
        seq![(0x30 + value) as u8]
    } else {
        decimal_bytes(value / 10).push((0x30 + value % 10) as u8)
    }
}

/// A number is read as the number that was written, with any number of zeros in
/// front of it. It is written in digits alone, and no more than five where it
/// fits.
pub proof fn written_numbers_read_back(value: nat, zeros: Seq<u8>)
    requires
        forall|i: int| 0 <= i < zeros.len() ==> zeros[i] == 0x30,
    ensures
        all_digits(zeros + decimal_bytes(value)),
        decimal(zeros + decimal_bytes(value)) == value,
        decimal_bytes(value).len() > 0,
        value <= u16::MAX ==> decimal_u16(zeros + decimal_bytes(value)) == Some(value as u16),
        value > u16::MAX ==> decimal_u16(zeros + decimal_bytes(value)) is None,
        value <= u16::MAX ==> decimal_bytes(value).len() <= 5,
    decreases value,
{
    let digits = zeros + decimal_bytes(value);
    if value < 10 {
        lemma_zeros(zeros);
        assert(digits.drop_last() =~= zeros);
    } else {
        written_numbers_read_back(value / 10, zeros);
        assert(digits.drop_last() =~= zeros + decimal_bytes(value / 10));
        assert forall|i: int| 0 <= i < digits.len() implies is_digit(#[trigger] digits[i]) by {
            if i < digits.len() - 1 {
                assert(digits.drop_last()[i] == digits[i]);
            }
        }
    }
    if value <= u16::MAX {
        short_numbers(value, 5);
    }
}

proof fn lemma_zeros(zeros: Seq<u8>)
    requires
        forall|i: int| 0 <= i < zeros.len() ==> zeros[i] == 0x30,
    ensures
        decimal(zeros) == 0,
    decreases zeros.len(),
{
    if zeros.len() > 0 {
        lemma_zeros(zeros.drop_last());
    }
}

/// Ten to the given power.
pub open spec fn ten_to(count: nat) -> nat
    decreases count,
{
    if count == 0 {
        1
    } else {
        10 * ten_to((count - 1) as nat)
    }
}

/// A number below a power of ten takes no more digits than that.
pub proof fn short_numbers(value: nat, count: nat)
    requires
        count > 0,
        value < ten_to(count) || count == 5 && value <= 99999,
    ensures
        decimal_bytes(value).len() <= count,
    decreases count,
{
    reveal_with_fuel(ten_to, 6);
    if value >= 10 {
        short_numbers(value / 10, (count - 1) as nat);
    }
}

/// A number is read digit by digit: one digit more makes ten times the number
/// and the digit.
pub proof fn digits_count_by_tens(digits: Seq<u8>, digit: u8)
    requires
        is_digit(digit),
    ensures
        decimal(seq![]) == 0,
        decimal(digits.push(digit)) == 10 * decimal(digits) + (digit - 0x30),
{
    assert(digits.push(digit).drop_last() =~= digits);
}

} // verus!
