//! What the parameters of an SGR say.
use vstd::prelude::*;

use crate::bytes::{self, COLON, SEMICOLON};
use crate::filters::sgr;

verus! {

/// What one parameter of an SGR sets.
pub enum Attribute {
    /// An attribute by its number, other than an extended color.
    Number(nat),
    /// An extended color from the palette, for what `ground` says.
    Indexed { ground: nat, index: nat },
    /// An extended color by its components, for what `ground` says.
    Direct { ground: nat, red: nat, green: nat, blue: nat },
    /// An attribute with subparameters, as it is written.
    Detailed(Seq<u8>),
    /// Nothing, which stands for 0.
    Missing,
}

/// Whether a number selects an extended color: 38 is the foreground, 48 the
/// background and 58 the underline.
pub open spec fn is_ground(number: nat) -> bool {
    number == 38 || number == 48 || number == 58
}

/// Whether an attribute is one of those that it seems to be.
pub open spec fn is_attribute(attribute: Attribute) -> bool {
    match attribute {
        Attribute::Number(number) => !is_ground(number),
        Attribute::Indexed { ground, .. } => is_ground(ground),
        Attribute::Direct { ground, .. } => is_ground(ground),
        Attribute::Detailed(text) => {
            &&& text.contains(COLON)
            &&& forall|i: int|
                0 <= i < text.len() ==> bytes::is_digit(#[trigger] text[i]) || text[i] == COLON
        },
        Attribute::Missing => true,
    }
}

/// Two texts with a `;` between them.
pub open spec fn and_then(a: Seq<u8>, b: Seq<u8>) -> Seq<u8> {
    a + seq![SEMICOLON] + b
}

/// How an attribute is written.
pub open spec fn attribute_text(attribute: Attribute) -> Seq<u8> {
    match attribute {
        Attribute::Number(number) => bytes::decimal_bytes(number),
        Attribute::Indexed { ground, index } => and_then(
            and_then(bytes::decimal_bytes(ground), seq![0x35u8]),
            bytes::decimal_bytes(index),
        ),
        Attribute::Direct { ground, red, green, blue } => and_then(
            and_then(
                and_then(
                    and_then(bytes::decimal_bytes(ground), seq![0x32u8]),
                    bytes::decimal_bytes(red),
                ),
                bytes::decimal_bytes(green),
            ),
            bytes::decimal_bytes(blue),
        ),
        Attribute::Detailed(text) => text,
        Attribute::Missing => seq![],
    }
}

/// The number by which an attribute is known. The arguments of a color are not
/// attributes, and subparameters hide the number.
pub open spec fn attribute_code(attribute: Attribute) -> Option<u16> {
    match attribute {
        Attribute::Number(number) => if number <= u16::MAX {
            Some(number as u16)
        } else {
            None
        },
        Attribute::Indexed { ground, .. } => Some(ground as u16),
        Attribute::Direct { ground, .. } => Some(ground as u16),
        Attribute::Detailed(_) => None,
        Attribute::Missing => Some(0u16),
    }
}

/// Attributes as they are written, with a `;` between any two.
pub open spec fn attributes_text(attributes: Seq<Attribute>) -> Seq<u8>
    decreases attributes.len(),
{
    if attributes.len() == 0 {
        seq![]
    } else if attributes.len() == 1 {
        attribute_text(attributes[0])
    } else {
        and_then(attribute_text(attributes[0]), attributes_text(attributes.drop_first()))
    }
}

/// The SGR that sets the given attributes.
pub open spec fn written_sgr(attributes: Seq<Attribute>) -> Seq<u8> {
    seq![0x1bu8, 0x5bu8] + attributes_text(attributes) + seq!['m' as u8]
}

/// The parameters that stand for attributes.
pub open spec fn parameters(attributes: Seq<Attribute>) -> Seq<sgr::ParamModel> {
    attributes.map_values(
        |attribute: Attribute|
            sgr::ParamModel { code: attribute_code(attribute), raw: attribute_text(attribute) },
    )
}

/// A field that stands in `params` between `from` and `end`.
proof fn lemma_field(params: Seq<u8>, from: int, end: int, field: Seq<u8>)
    requires
        0 <= from <= end <= params.len(),
        params.subrange(from, end) == field,
        forall|i: int| 0 <= i < field.len() ==> field[i] != SEMICOLON,
        end < params.len() ==> params[end] == SEMICOLON,
    ensures
        bytes::field_end(params, from) == end,
        bytes::field_at(params, from) == field,
{
    assert forall|i: int| from <= i < end implies params[i] != SEMICOLON by {
        assert(params.subrange(from, end)[i - from] == params[i]);
    }
    bytes::lemma_field_end_unique(params, from, end);
}

proof fn lemma_number(number: nat)
    ensures
        bytes::decimal_bytes(number).len() > 0,
        bytes::all_digits(bytes::decimal_bytes(number)),
        bytes::decimal(bytes::decimal_bytes(number)) == number,
        forall|i: int|
            0 <= i < bytes::decimal_bytes(number).len() ==> bytes::decimal_bytes(number)[i]
                != SEMICOLON && bytes::decimal_bytes(number)[i] != COLON,
{
    let digits = bytes::decimal_bytes(number);
    bytes::written_numbers_read_back(number, seq![]);
    assert(Seq::<u8>::empty() + digits =~= digits);
    assert forall|i: int| 0 <= i < digits.len() implies digits[i] != SEMICOLON && digits[i]
        != COLON by {
        assert(bytes::is_digit(digits[i]));
    }
}

/// A number, behind a field that ends at `end`.
proof fn lemma_value(params: Seq<u8>, end: int, number: nat, count: nat)
    requires
        0 <= end < params.len(),
        params[end] == SEMICOLON,
        end + 1 + bytes::decimal_bytes(number).len() <= params.len(),
        params.subrange(end + 1, (end + 1 + bytes::decimal_bytes(number).len()) as int)
            == bytes::decimal_bytes(number),
        end + 1 + bytes::decimal_bytes(number).len() < params.len() ==> params[(end + 1
            + bytes::decimal_bytes(number).len()) as int] == SEMICOLON,
        count > 0,
    ensures
        sgr::values_end(params, end, count) == sgr::values_end(
            params,
            (end + 1 + bytes::decimal_bytes(number).len()) as int,
            (count - 1) as nat,
        ),
{
    let next = (end + 1 + bytes::decimal_bytes(number).len()) as int;
    lemma_number(number);
    lemma_field(params, end + 1, next, bytes::decimal_bytes(number));
}

proof fn lemma_part(params: Seq<u8>, from: int, end: int, text: Seq<u8>, at: int, part: Seq<u8>)
    requires
        0 <= from <= end <= params.len(),
        params.subrange(from, end) == text,
        0 <= at,
        at + part.len() <= text.len(),
        forall|i: int| 0 <= i < part.len() ==> text[at + i] == #[trigger] part[i],
    ensures
        params.subrange(from + at, (from + at + part.len()) as int) == part,
{
    assert forall|i: int| 0 <= i < part.len() implies params[from + at + i] == part[i] by {
        assert(text[at + i] == part[i]);
        assert(params.subrange(from, end)[at + i] == params[from + at + i]);
    }
    assert(params.subrange(from + at, (from + at + part.len()) as int) =~= part);
}

/// A color from the palette that stands in `params` between `from` and `end`.
proof fn lemma_indexed(params: Seq<u8>, from: int, end: int, attribute: Attribute)
    requires
        0 <= from <= end <= params.len(),
        attribute is Indexed,
        params.subrange(from, end) == attribute_text(attribute),
        end < params.len() ==> params[end] == SEMICOLON,
        is_attribute(attribute),
    ensures
        sgr::param_end(params, from) == Some(end),
        sgr::field_code(bytes::field_at(params, from)) == attribute_code(attribute),
{
    let text = attribute_text(attribute);
    let ground = attribute->Indexed_ground;
    let index = attribute->index;
    lemma_number(ground);
    lemma_number(index);
    let first = bytes::decimal_bytes(ground);
    let second = bytes::decimal_bytes(index);
    let separator = seq![SEMICOLON];
    let a = first.len() as int;
    assert(text =~= first + separator + seq![0x35u8] + separator + second);
    lemma_part(params, from, end, text, 0, first);
    lemma_part(params, from, end, text, a + 1, seq![0x35u8]);
    lemma_part(params, from, end, text, a + 3, second);
    assert(params.subrange(from, end)[a] == params[from + a]);
    assert(params.subrange(from, end)[a + 2] == params[from + a + 2]);
    lemma_field(params, from, from + a, first);
    lemma_field(params, from + a + 1, from + a + 2, seq![0x35u8]);
    lemma_value(params, from + a + 2, index, 1);
    assert(sgr::values_end(params, from + a + 2, 1) == Some(end));
    assert(!sgr::has_subparams(first));
}

/// A color by its components that stands in `params` between `from` and `end`.
proof fn lemma_direct(params: Seq<u8>, from: int, end: int, attribute: Attribute)
    requires
        0 <= from <= end <= params.len(),
        attribute is Direct,
        params.subrange(from, end) == attribute_text(attribute),
        end < params.len() ==> params[end] == SEMICOLON,
        is_attribute(attribute),
    ensures
        sgr::param_end(params, from) == Some(end),
        sgr::field_code(bytes::field_at(params, from)) == attribute_code(attribute),
{
    let text = attribute_text(attribute);
    let ground = attribute->Direct_ground;
    let red = attribute->red;
    let green = attribute->green;
    let blue = attribute->blue;
    lemma_number(ground);
    lemma_number(red);
    lemma_number(green);
    lemma_number(blue);
    let first = bytes::decimal_bytes(ground);
    let r = bytes::decimal_bytes(red);
    let g = bytes::decimal_bytes(green);
    let b = bytes::decimal_bytes(blue);
    let separator = seq![SEMICOLON];
    let a = first.len() as int;
    let after_red = (a + 3 + r.len()) as int;
    let after_green = (after_red + 1 + g.len()) as int;
    assert(text =~= first + separator + seq![0x32u8] + separator + r + separator + g + separator
        + b);
    lemma_part(params, from, end, text, 0, first);
    lemma_part(params, from, end, text, a + 1, seq![0x32u8]);
    lemma_part(params, from, end, text, a + 3, r);
    lemma_part(params, from, end, text, after_red + 1, g);
    lemma_part(params, from, end, text, after_green + 1, b);
    assert(params.subrange(from, end)[a] == params[from + a]);
    assert(params.subrange(from, end)[a + 2] == params[from + a + 2]);
    assert(params.subrange(from, end)[after_red] == params[from + after_red]);
    assert(params.subrange(from, end)[after_green] == params[from + after_green]);
    lemma_field(params, from, from + a, first);
    lemma_field(params, from + a + 1, from + a + 2, seq![0x32u8]);
    lemma_value(params, from + a + 2, red, 3);
    lemma_value(params, from + after_red, green, 2);
    lemma_value(params, from + after_green, blue, 1);
    assert(seq![0x32u8][0] != seq![0x35u8][0]);
    assert(sgr::values_end(params, from + a + 2, 3) == Some(end));
    assert(!sgr::has_subparams(first));
}

/// An attribute that stands in `params` between `from` and `end`.
proof fn lemma_attribute(params: Seq<u8>, from: int, end: int, attribute: Attribute)
    requires
        0 <= from <= end <= params.len(),
        params.subrange(from, end) == attribute_text(attribute),
        end < params.len() ==> params[end] == SEMICOLON,
        is_attribute(attribute),
    ensures
        sgr::param_end(params, from) == Some(end),
        sgr::field_code(bytes::field_at(params, from)) == attribute_code(attribute),
{
    let text = attribute_text(attribute);
    assert forall|i: int| 0 <= i < text.len() implies params[from + i] == text[i] by {
        assert(params.subrange(from, end)[i] == text[i]);
    }
    match attribute {
        Attribute::Number(number) => {
            lemma_number(number);
            lemma_field(params, from, end, text);
        },
        Attribute::Indexed { .. } => {
            lemma_indexed(params, from, end, attribute);
        },
        Attribute::Direct { .. } => {
            lemma_direct(params, from, end, attribute);
        },
        Attribute::Detailed(_) => {
            lemma_field(params, from, end, text);
        },
        Attribute::Missing => {
            lemma_field(params, from, end, text);
        },
    }
}

proof fn lemma_attributes(params: Seq<u8>, from: int, attributes: Seq<Attribute>)
    requires
        0 <= from <= params.len(),
        params.skip(from) == attributes_text(attributes),
        attributes.len() > 0,
        forall|i: int| 0 <= i < attributes.len() ==> is_attribute(#[trigger] attributes[i]),
    ensures
        sgr::params_from(params, from) == Some(parameters(attributes)),
    decreases attributes.len(),
{
    let text = attribute_text(attributes[0]);
    let end = (from + text.len()) as int;
    let whole = attributes_text(attributes);
    assert(whole.len() == params.len() - from);
    assert(params.subrange(from, end) =~= text) by {
        assert forall|i: int| 0 <= i < text.len() implies params[from + i] == text[i] by {
            assert(params.skip(from)[i] == whole[i]);
        }
    }
    assert(is_attribute(attributes[0]));
    if attributes.len() == 1 {
        lemma_attribute(params, from, end, attributes[0]);
        assert(sgr::params_from(params, end + 1) == Some(Seq::<sgr::ParamModel>::empty()));
        assert(parameters(attributes) =~= seq![parameters(attributes)[0]] + Seq::<
            sgr::ParamModel,
        >::empty());
    } else {
        let rest = attributes.drop_first();
        assert(params[end] == params.skip(from)[text.len() as int]);
        assert(params.skip(end + 1) =~= attributes_text(rest)) by {
            assert forall|i: int| 0 <= i < attributes_text(rest).len() implies params[end + 1 + i]
                == attributes_text(rest)[i] by {
                assert(params.skip(from)[text.len() + 1 + i] == whole[text.len() + 1 + i]);
            }
        }
        assert forall|i: int| 0 <= i < rest.len() implies is_attribute(#[trigger] rest[i]) by {
            assert(rest[i] == attributes[i + 1]);
        }
        lemma_attribute(params, from, end, attributes[0]);
        lemma_attributes(params, end + 1, rest);
        assert(parameters(attributes) =~= seq![parameters(attributes)[0]] + parameters(rest));
    }
}

/// Whatever attributes an SGR sets, in whatever number and order, are read back
/// from it, each with its own number; the arguments of an extended color belong
/// to it.
pub proof fn attributes_are_read_back(attributes: Seq<Attribute>)
    requires
        attributes.len() > 0,
        forall|i: int| 0 <= i < attributes.len() ==> is_attribute(#[trigger] attributes[i]),
    ensures
        sgr::sgr_of(written_sgr(attributes)) == Some(parameters(attributes)),
{
    let data = written_sgr(attributes);
    assert(data.subrange(2, data.len() - 1) =~= attributes_text(attributes));
    assert(attributes_text(attributes).skip(0) =~= attributes_text(attributes));
    lemma_attributes(attributes_text(attributes), 0, attributes);
}

/// The attributes but for those with the given number.
pub open spec fn attributes_without(attributes: Seq<Attribute>, number: u16) -> Seq<Attribute>
    decreases attributes.len(),
{
    if attributes.len() == 0 {
        seq![]
    } else if attribute_code(attributes[0]) == Some(number) {
        attributes_without(attributes.drop_first(), number)
    } else {
        seq![attributes[0]] + attributes_without(attributes.drop_first(), number)
    }
}

proof fn lemma_kept_both(a: Seq<sgr::ParamModel>, b: Seq<sgr::ParamModel>, removed: u16)
    ensures
        sgr::kept_params(a + b, removed) == sgr::kept_params(a, removed) + sgr::kept_params(
            b,
            removed,
        ),
    decreases b.len(),
{
    if b.len() == 0 {
        assert(a + b =~= a);
        assert(sgr::kept_params(a, removed) + Seq::<sgr::ParamModel>::empty()
            =~= sgr::kept_params(a, removed));
    } else {
        lemma_kept_both(a, b.drop_last(), removed);
        assert((a + b).drop_last() =~= a + b.drop_last());
        assert(sgr::kept_params(a + b, removed) =~= sgr::kept_params(a, removed)
            + sgr::kept_params(b, removed));
    }
}

proof fn lemma_joined_first(first: sgr::ParamModel, rest: Seq<sgr::ParamModel>)
    requires
        rest.len() > 0,
    ensures
        sgr::joined(seq![first] + rest) == and_then(first.raw, sgr::joined(rest)),
    decreases rest.len(),
{
    let all = seq![first] + rest;
    assert(all.drop_last() =~= seq![first] + rest.drop_last());
    assert(all.last() == rest.last());
    if rest.len() == 1 {
        assert(all.drop_last() =~= seq![first]);
        assert(sgr::joined(all.drop_last()) == first.raw);
        assert(sgr::joined(rest) == rest.last().raw);
        assert(sgr::joined(all) =~= and_then(first.raw, sgr::joined(rest)));
    } else {
        lemma_joined_first(first, rest.drop_last());
        assert(sgr::joined(all) =~= and_then(first.raw, sgr::joined(rest)));
    }
}

proof fn lemma_joined(attributes: Seq<Attribute>)
    ensures
        sgr::joined(parameters(attributes)) == attributes_text(attributes),
    decreases attributes.len(),
{
    if attributes.len() > 1 {
        let rest = attributes.drop_first();
        let first = parameters(attributes)[0];
        lemma_joined(rest);
        assert(parameters(attributes) =~= seq![first] + parameters(rest));
        lemma_joined_first(first, parameters(rest));
    }
}

/// What is left of an SGR without a number is the SGR of the other attributes,
/// in their order; where there is none, it is nothing.
pub proof fn other_attributes_are_kept(attributes: Seq<Attribute>, number: u16)
    ensures
        sgr::written(sgr::kept_params(parameters(attributes), number)) == if attributes_without(
            attributes,
            number,
        ).len() == 0 {
            seq![]
        } else {
            written_sgr(attributes_without(attributes, number))
        },
{
    lemma_kept(attributes, number);
    let left = attributes_without(attributes, number);
    lemma_joined(left);
    assert(parameters(left).len() == left.len());
}

proof fn lemma_kept(attributes: Seq<Attribute>, number: u16)
    ensures
        sgr::kept_params(parameters(attributes), number) == parameters(
            attributes_without(attributes, number),
        ),
    decreases attributes.len(),
{
    if attributes.len() == 0 {
        assert(parameters(attributes) =~= seq![]);
        assert(parameters(attributes_without(attributes, number)) =~= seq![]);
    } else {
        let rest = attributes.drop_first();
        let first = parameters(attributes)[0];
        lemma_kept(rest, number);
        assert(parameters(attributes) =~= seq![first] + parameters(rest));
        lemma_kept_both(seq![first], parameters(rest), number);
        assert(seq![first].drop_last() =~= seq![]);
        reveal_with_fuel(sgr::kept_params, 2);
        assert(sgr::kept_params(parameters(attributes), number) =~= parameters(
            attributes_without(attributes, number),
        ));
    }
}

/// Whether one of the attributes has the given number.
pub open spec fn sets(attributes: Seq<Attribute>, number: u16) -> bool {
    exists|i: int|
        0 <= i < attributes.len() && attribute_code(#[trigger] attributes[i]) == Some(number)
}

/// The numbers that an SGR is known by are those of its attributes.
pub proof fn numbers_are_those_of_the_attributes(attributes: Seq<Attribute>, number: u16)
    ensures
        sgr::has_code(parameters(attributes), number) == sets(attributes, number),
{
    let params = parameters(attributes);
    if sgr::has_code(params, number) {
        let i = choose|i: int| 0 <= i < params.len() && (#[trigger] params[i]).code == Some(number);
        assert(attribute_code(attributes[i]) == Some(number));
    }
    if sets(attributes, number) {
        let i = choose|i: int|
            0 <= i < attributes.len() && attribute_code(#[trigger] attributes[i]) == Some(number);
        assert(params[i].code == Some(number));
    }
}

/// Whether a byte may stand between `ESC [` and `m` in an SGR.
pub open spec fn is_sgr_byte(byte: u8) -> bool {
    bytes::is_digit(byte) || byte == SEMICOLON || byte == COLON
}

/// Attributes are written in digits, `;` and `:`.
pub proof fn attributes_are_written_in_numbers(attributes: Seq<Attribute>)
    requires
        forall|i: int| 0 <= i < attributes.len() ==> is_attribute(#[trigger] attributes[i]),
    ensures
        forall|i: int|
            0 <= i < attributes_text(attributes).len() ==> is_sgr_byte(
                #[trigger] attributes_text(attributes)[i],
            ),
    decreases attributes.len(),
{
    if attributes.len() > 0 {
        let rest = attributes.drop_first();
        assert forall|i: int| 0 <= i < rest.len() implies is_attribute(#[trigger] rest[i]) by {
            assert(rest[i] == attributes[i + 1]);
        }
        attributes_are_written_in_numbers(rest);
        assert(is_attribute(attributes[0]));
        let text = attribute_text(attributes[0]);
        assert forall|i: int| 0 <= i < text.len() implies is_sgr_byte(#[trigger] text[i]) by {
            lemma_text_bytes(attributes[0], i);
        }
        let whole = attributes_text(attributes);
        assert forall|i: int| 0 <= i < whole.len() implies is_sgr_byte(#[trigger] whole[i]) by {
            if i < text.len() {
                assert(whole[i] == text[i]);
            } else if i > text.len() {
                assert(whole[i] == attributes_text(rest)[i - text.len() - 1]);
            }
        }
    }
}

proof fn lemma_text_bytes(attribute: Attribute, i: int)
    requires
        is_attribute(attribute),
        0 <= i < attribute_text(attribute).len(),
    ensures
        is_sgr_byte(attribute_text(attribute)[i]),
{
    match attribute {
        Attribute::Number(number) => {
            lemma_number(number);
        },
        Attribute::Indexed { ground, index } => {
            lemma_number(ground);
            lemma_number(index);
            let n = bytes::decimal_bytes(ground);
            if i < n.len() {
                assert(bytes::is_digit(n[i]));
            } else if i >= n.len() + 3 {
                assert(bytes::is_digit(bytes::decimal_bytes(index)[i - n.len() - 3]));
            }
        },
        Attribute::Direct { ground, red, green, blue } => {
            lemma_number(ground);
            lemma_number(red);
            lemma_number(green);
            lemma_number(blue);
            let n = bytes::decimal_bytes(ground);
            let r = bytes::decimal_bytes(red);
            let g = bytes::decimal_bytes(green);
            let b = bytes::decimal_bytes(blue);
            if i < n.len() {
                assert(bytes::is_digit(n[i]));
            } else if n.len() + 3 <= i < n.len() + 3 + r.len() {
                assert(bytes::is_digit(r[i - n.len() - 3]));
            } else if n.len() + 4 + r.len() <= i < n.len() + 4 + r.len() + g.len() {
                assert(bytes::is_digit(g[i - n.len() - 4 - r.len()]));
            } else if n.len() + 5 + r.len() + g.len() <= i {
                assert(bytes::is_digit(b[i - n.len() - 5 - r.len() - g.len()]));
            }
        },
        Attribute::Detailed(_) => {},
        Attribute::Missing => {},
    }
}

proof fn lemma_values_bytes(params: Seq<u8>, end: int, count: nat)
    requires
        0 <= end <= params.len(),
        end < params.len() ==> params[end] == SEMICOLON,
        sgr::values_end(params, end, count) is Some,
    ensures
        end <= sgr::values_end(params, end, count)->0 <= params.len(),
        sgr::values_end(params, end, count)->0 < params.len() ==> params[sgr::values_end(
            params,
            end,
            count,
        )->0] == SEMICOLON,
        forall|i: int|
            end <= i < sgr::values_end(params, end, count)->0 ==> is_sgr_byte(#[trigger] params[i]),
    decreases count,
{
    if count > 0 {
        bytes::lemma_field_end(params, end + 1);
        let next = bytes::field_end(params, end + 1);
        let value = bytes::field_at(params, end + 1);
        lemma_values_bytes(params, next, (count - 1) as nat);
        assert forall|i: int| end + 1 <= i < next implies is_sgr_byte(#[trigger] params[i]) by {
            assert(bytes::is_digit(value[i - end - 1]));
        }
    }
}

proof fn lemma_params_bytes(params: Seq<u8>, from: int)
    requires
        0 <= from,
        sgr::params_from(params, from) is Some,
    ensures
        forall|i: int| from <= i < params.len() ==> is_sgr_byte(#[trigger] params[i]),
    decreases params.len() + 1 - from,
{
    if from <= params.len() {
        bytes::lemma_field_end(params, from);
        let field = bytes::field_at(params, from);
        let first = bytes::field_end(params, from);
        let end = sgr::param_end(params, from)->0;
        lemma_params_bytes(params, end + 1);
        assert forall|i: int| from <= i < first implies is_sgr_byte(#[trigger] params[i]) by {
            assert(field[i - from] == params[i]);
            assert(bytes::is_digit(field[i - from]) || field[i - from] == COLON);
        }
        if sgr::is_extended_color(sgr::field_code(field)) {
            bytes::lemma_field_end(params, first + 1);
            let mode = bytes::field_at(params, first + 1);
            let mode_end = bytes::field_end(params, first + 1);
            assert(first < params.len());
            assert(mode.len() == mode_end - (first + 1));
            assert(mode.len() == 1);
            assert(params[first + 1] == mode[0]);
            lemma_values_bytes(
                params,
                mode_end,
                if mode == seq![0x35u8] {
                    1
                } else {
                    3
                },
            );
        }
        if end < params.len() {
            assert(params[end] == SEMICOLON);
        }
    }
}

/// Bytes are no SGR where anything but digits, `;` and `:` stands between
/// `ESC [` and `m`.
pub proof fn other_bytes_make_no_sgr(data: Seq<u8>, at: int)
    requires
        2 <= at < data.len() - 1,
        !is_sgr_byte(data[at]),
    ensures
        sgr::sgr_of(data) is None,
{
    if sgr::sgr_of(data) is Some {
        let params = data.subrange(2, data.len() - 1);
        lemma_params_bytes(params, 0);
        assert(is_sgr_byte(params[at - 2]));
    }
}

/// Attributes with more text behind them.
pub open spec fn attributes_and(attributes: Seq<Attribute>, rest: Seq<u8>) -> Seq<u8> {
    if attributes.len() == 0 {
        rest
    } else {
        and_then(attributes_text(attributes), rest)
    }
}

proof fn lemma_after_attributes(
    params: Seq<u8>,
    from: int,
    attributes: Seq<Attribute>,
    rest: Seq<u8>,
)
    requires
        0 <= from <= params.len(),
        params.skip(from) == attributes_and(attributes, rest),
        forall|i: int| 0 <= i < attributes.len() ==> is_attribute(#[trigger] attributes[i]),
        sgr::params_from(params, params.len() - rest.len()) is None,
    ensures
        sgr::params_from(params, from) is None,
    decreases attributes.len(),
{
    let whole = attributes_and(attributes, rest);
    assert(whole.len() == params.len() - from);
    if attributes.len() > 0 {
        let text = attribute_text(attributes[0]);
        let others = attributes.drop_first();
        let end = (from + text.len()) as int;
        assert(whole =~= and_then(text, attributes_and(others, rest)));
        assert(params.subrange(from, end) =~= text) by {
            assert forall|i: int| 0 <= i < text.len() implies params[from + i] == text[i] by {
                assert(params.skip(from)[i] == whole[i]);
            }
        }
        assert(params[end] == params.skip(from)[text.len() as int]);
        assert(params.skip(end + 1) =~= attributes_and(others, rest)) by {
            assert forall|i: int| 0 <= i < attributes_and(others, rest).len() implies params[end + 1
                + i] == attributes_and(others, rest)[i] by {
                assert(params.skip(from)[text.len() + 1 + i] == whole[text.len() + 1 + i]);
            }
        }
        assert forall|i: int| 0 <= i < others.len() implies is_attribute(#[trigger] others[i]) by {
            assert(others[i] == attributes[i + 1]);
        }
        assert(is_attribute(attributes[0]));
        lemma_attribute(params, from, end, attributes[0]);
        lemma_after_attributes(params, end + 1, others, rest);
    }
}

/// An extended color with at most one argument, and with what follows it.
pub open spec fn incomplete_color(
    ground: nat,
    argument: Option<nat>,
    others: Seq<u8>,
) -> Seq<u8> {
    match argument {
        Some(argument) => and_then(
            bytes::decimal_bytes(ground),
            bytes::decimal_bytes(argument),
        ) + others,
        None => bytes::decimal_bytes(ground),
    }
}

/// An extended color needs its arguments: with none, with one, or with one that
/// selects neither the palette nor components, the whole sequence is no SGR,
/// whatever stands in front.
pub proof fn incomplete_colors_make_no_sgr(
    attributes: Seq<Attribute>,
    ground: nat,
    argument: Option<nat>,
    others: Seq<u8>,
)
    requires
        forall|i: int| 0 <= i < attributes.len() ==> is_attribute(#[trigger] attributes[i]),
        is_ground(ground),
        argument is None ==> others.len() == 0,
        others.len() > 0 ==> others[0] == SEMICOLON && argument != Some(2nat) && argument != Some(
            5nat,
        ),
    ensures
        ({
            let color = incomplete_color(ground, argument, others);
            let data = seq![0x1bu8, 0x5bu8] + attributes_and(attributes, color) + seq!['m' as u8];
            sgr::sgr_of(data) is None
        }),
{
    let color = incomplete_color(ground, argument, others);
    let params = attributes_and(attributes, color);
    let data = seq![0x1bu8, 0x5bu8] + params + seq!['m' as u8];
    let from = params.len() - color.len();
    assert(data.subrange(2, data.len() - 1) =~= params);
    assert(params.skip(0) =~= params);
    assert(params.skip(from) =~= color);
    lemma_incomplete(params, from, ground, argument, others);
    lemma_after_attributes(params, 0, attributes, color);
}

proof fn lemma_incomplete(
    params: Seq<u8>,
    from: int,
    ground: nat,
    argument: Option<nat>,
    others: Seq<u8>,
)
    requires
        0 <= from <= params.len(),
        params.skip(from) == incomplete_color(ground, argument, others),
        is_ground(ground),
        argument is None ==> others.len() == 0,
        others.len() > 0 ==> others[0] == SEMICOLON && argument != Some(2nat) && argument != Some(
            5nat,
        ),
    ensures
        sgr::params_from(params, from) is None,
{
    let first = bytes::decimal_bytes(ground);
    let color = params.skip(from);
    let len = params.len() as int;
    let end = (from + first.len()) as int;
    assert(params.subrange(from, len) =~= color);
    lemma_number(ground);
    if argument is Some {
        let number = argument->0;
        let second = bytes::decimal_bytes(number);
        let last = (end + 1 + second.len()) as int;
        lemma_number(number);
        assert(color =~= first + seq![SEMICOLON] + second + others);
        lemma_part(params, from, len, color, 0, first);
        lemma_part(params, from, len, color, end + 1 - from, second);
        assert(color[first.len() as int] == params[end]);
        if others.len() > 0 {
            assert(color[last - from] == params[last]);
            assert(color[last - from] == others[0]);
        }
        lemma_field(params, from, end, first);
        lemma_field(params, end + 1, last, second);
        lemma_one_digit(number, 5);
        lemma_one_digit(number, 2);
        assert(sgr::values_end(params, last, 1) is None || others.len() > 0);
        assert(sgr::values_end(params, last, 3) is None || others.len() > 0);
        assert(sgr::color_end(params, end) is None);
    } else {
        lemma_part(params, from, len, color, 0, first);
        lemma_field(params, from, end, first);
        assert(sgr::color_end(params, end) is None);
    }
    assert(!sgr::has_subparams(first));
    assert(sgr::param_end(params, from) is None);
}

proof fn lemma_one_digit(number: nat, digit: nat)
    requires
        digit < 10,
    ensures
        bytes::decimal_bytes(number) == seq![(0x30 + digit) as u8] ==> number == digit,
{
    lemma_number(number);
    if bytes::decimal_bytes(number) == seq![(0x30 + digit) as u8] {
        assert(bytes::decimal_bytes(digit) == bytes::decimal_bytes(number));
        lemma_number(digit);
    }
}

} // verus!
