//! SGR sequences and their parameters.
use vstd::prelude::*;

use crate::bytes::{
    self, digits_only, find_field_end, parse_decimal, BRACKET, COLON, ESC, LOWER_M, NINE,
    SEMICOLON, ZERO,
};
use crate::filters::{csi, model};

verus! {

/// A parameter of an SGR. One that selects an extended color by `;` holds the
/// color's arguments too.
#[verifier::ext_equal]
pub struct ParamModel {
    /// The attribute's number. `None` where it does not fit, or where the
    /// parameter has subparameters.
    pub code: Option<u16>,
    /// The parameter as it was written.
    pub raw: Seq<u8>,
}

/// Whether `field` has subparameters.
pub open spec fn has_subparams(field: Seq<u8>) -> bool {
    field.contains(COLON)
}

/// Whether every byte of `field` is a digit or a `:`.
pub open spec fn digits_and_colons(field: Seq<u8>) -> bool {
    forall|i: int|
        0 <= i < field.len() ==> bytes::is_digit(#[trigger] field[i]) || field[i] == COLON
}

/// The attribute's number that a field writes. An empty field stands for 0.
pub open spec fn field_code(field: Seq<u8>) -> Option<u16> {
    if has_subparams(field) {
        None
    } else {
        bytes::decimal_u16(field)
    }
}

/// Whether a field may stand in an SGR.
pub open spec fn is_valid_field(field: Seq<u8>) -> bool {
    if has_subparams(field) {
        digits_and_colons(field)
    } else {
        bytes::all_digits(field)
    }
}

/// Whether an attribute selects an extended color, which the next fields
/// give: 38 for the foreground, 48 for the background, 58 for the underline.
pub open spec fn is_extended_color(code: Option<u16>) -> bool {
    code == Some(38u16) || code == Some(48u16) || code == Some(58u16)
}

/// The end of `count` fields of digits, the first of which follows the field
/// that ends at `end`.
pub open spec fn values_end(params: Seq<u8>, end: int, count: nat) -> Option<int>
    decreases count,
{
    if count == 0 {
        Some(end)
    } else if end >= params.len() {
        None
    } else {
        let value = bytes::field_at(params, end + 1);
        if value.len() == 0 || !bytes::all_digits(value) {
            None
        } else {
            values_end(params, bytes::field_end(params, end + 1), (count - 1) as nat)
        }
    }
}

/// The end of a color's arguments, behind the field that ends at `end`: `5`
/// and an index, or `2` and three components.
pub open spec fn color_end(params: Seq<u8>, end: int) -> Option<int> {
    if end >= params.len() {
        None
    } else {
        let mode = bytes::field_at(params, end + 1);
        let mode_end = bytes::field_end(params, end + 1);
        if mode == seq![0x35u8] {
            values_end(params, mode_end, 1)
        } else if mode == seq![0x32u8] {
            values_end(params, mode_end, 3)
        } else {
            None
        }
    }
}

/// The end of the parameter that starts at `from`; `None` where it is
/// malformed.
pub open spec fn param_end(params: Seq<u8>, from: int) -> Option<int> {
    let field = bytes::field_at(params, from);
    let end = bytes::field_end(params, from);
    if !is_valid_field(field) {
        None
    } else if is_extended_color(field_code(field)) {
        color_end(params, end)
    } else {
        Some(end)
    }
}

/// The parameters of `params` from index `from` on; `None` where one of them
/// is malformed.
pub open spec fn params_from(params: Seq<u8>, from: int) -> Option<Seq<ParamModel>>
    decreases params.len() + 1 - from,
{
    if from < 0 || from > params.len() {
        Some(seq![])
    } else {
        match param_end(params, from) {
            Some(end) if from <= end <= params.len() => {
                let param = ParamModel {
                    code: field_code(bytes::field_at(params, from)),
                    raw: params.subrange(from, end),
                };
                match params_from(params, end + 1) {
                    Some(rest) => Some(seq![param] + rest),
                    None => None,
                }
            },
            _ => None,
        }
    }
}

/// The parameters of an SGR; `None` where one of them is malformed. There is
/// always at least one, though it may be empty.
pub open spec fn sgr_params(params: Seq<u8>) -> Option<Seq<ParamModel>> {
    params_from(params, 0)
}

/// Whether one of `params` has the given code.
pub open spec fn has_code(params: Seq<ParamModel>, code: u16) -> bool {
    exists|i: int| 0 <= i < params.len() && (#[trigger] params[i]).code == Some(code)
}

/// The parameters whose code is not `removed`, in order.
pub open spec fn kept_params(params: Seq<ParamModel>, removed: u16) -> Seq<ParamModel>
    decreases params.len(),
{
    if params.len() == 0 {
        seq![]
    } else if params.last().code == Some(removed) {
        kept_params(params.drop_last(), removed)
    } else {
        kept_params(params.drop_last(), removed).push(params.last())
    }
}

/// Parameters as they were written, with `;` between them.
pub open spec fn joined(params: Seq<ParamModel>) -> Seq<u8>
    decreases params.len(),
{
    if params.len() == 0 {
        seq![]
    } else if params.len() == 1 {
        params[0].raw
    } else {
        joined(params.drop_last()) + seq![SEMICOLON] + params.last().raw
    }
}

/// An SGR with the given parameters; nothing at all where there is none.
pub open spec fn written(params: Seq<ParamModel>) -> Seq<u8> {
    if params.len() == 0 {
        seq![]
    } else {
        seq![ESC, BRACKET] + joined(params) + seq![LOWER_M]
    }
}

/// The bytes of an SGR between `ESC [` and `m`; `None` for any other bytes.
pub open spec fn sgr_body(data: Seq<u8>) -> Option<Seq<u8>> {
    if data.len() >= 3 && data[0] == ESC && data[1] == BRACKET && data.last() == LOWER_M {
        Some(data.subrange(2, data.len() - 1))
    } else {
        None
    }
}

/// The parameters of `data`, where it is a well-formed SGR.
pub open spec fn sgr_of(data: Seq<u8>) -> Option<Seq<ParamModel>> {
    match sgr_body(data) {
        Some(params) => sgr_params(params),
        None => None,
    }
}

/// A parameter of an SGR, within the bytes that it was read from.
#[derive(Debug, Clone, Copy)]
pub struct SgrParam<'a> {
    pub code: Option<u16>,
    pub raw: &'a [u8],
}

impl<'a> View for SgrParam<'a> {
    type V = ParamModel;

    open spec fn view(&self) -> ParamModel {
        ParamModel { code: self.code, raw: self.raw@ }
    }
}

/// The parameters that `params` stands for.
pub open spec fn models<'a>(params: Seq<SgrParam<'a>>) -> Seq<ParamModel> {
    Seq::new(params.len(), |i: int| params[i]@)
}

/// Whether `field` is well formed, and its code.
fn read_field(field: &[u8]) -> (code: Option<Option<u16>>)
    ensures
        code == if is_valid_field(field@) {
            Some(field_code(field@))
        } else {
            None
        },
{
    if memchr::memchr(COLON, field).is_some() {
        let mut i: usize = 0;
        while i < field.len()
            invariant
                i <= field@.len(),
                forall|j: int|
                    0 <= j < i ==> bytes::is_digit(#[trigger] field@[j]) || field@[j]
                        == COLON,
            decreases field@.len() - i,
        {
            if (field[i] < ZERO || field[i] > NINE) && field[i] != COLON {
                assert(!bytes::is_digit(field@[i as int]));
                return None;
            }
            i += 1;
        }
        Some(None)
    } else if digits_only(field) {
        Some(parse_decimal(field))
    } else {
        None
    }
}

/// Finds the end of `count` fields of digits behind a field that ends at
/// `end`.
fn skip_values(params: &[u8], end: usize, count: usize) -> (last: Option<usize>)
    requires
        end <= params@.len(),
    ensures
        match values_end(params@, end as int, count as nat) {
            Some(at) => last is Some && last->0 == at && end <= at <= params@.len(),
            None => last is None,
        },
{
    let mut at: usize = end;
    let mut left: usize = count;
    while left > 0
        invariant
            end <= at <= params@.len(),
            values_end(params@, end as int, count as nat) == values_end(
                params@,
                at as int,
                left as nat,
            ),
        decreases left,
    {
        if at >= params.len() {
            return None;
        }
        let next: usize = find_field_end(params, at + 1);
        let value = &params[at + 1..next];
        if value.len() == 0 || !digits_only(value) {
            return None;
        }
        at = next;
        left -= 1;
    }
    Some(at)
}

/// Finds the end of a color's arguments behind a field that ends at `end`.
fn skip_color(params: &[u8], end: usize) -> (last: Option<usize>)
    requires
        end <= params@.len(),
    ensures
        match color_end(params@, end as int) {
            Some(at) => last is Some && last->0 == at && end <= at <= params@.len(),
            None => last is None,
        },
{
    if end >= params.len() {
        return None;
    }
    let mode_end: usize = find_field_end(params, end + 1);
    let mode = &params[end + 1..mode_end];
    assert(mode@ == bytes::field_at(params@, end + 1));
    if mode.len() != 1 {
        return None;
    }
    assert(mode@ =~= seq![mode@[0]]);
    assert(seq![0x35u8][0] == 0x35 && seq![0x32u8][0] == 0x32);
    if mode[0] == 0x35 {
        skip_values(params, mode_end, 1)
    } else if mode[0] == 0x32 {
        skip_values(params, mode_end, 3)
    } else {
        None
    }
}

/// Reads the parameters of an SGR, keeping extended-color arguments together.
/// Colon-delimited subparameters are already contained in one raw field.
pub fn parse_sgr_params<'a>(params: &'a [u8]) -> (parsed: Option<Vec<SgrParam<'a>>>)
    ensures
        match sgr_params(params@) {
            Some(expected) => parsed is Some && models(parsed->0@) == expected,
            None => parsed is None,
        },
{
    let mut parsed: Vec<SgrParam<'a>> = Vec::new();
    let mut from: usize = 0;
    loop
        invariant
            from <= params@.len(),
            sgr_params(params@) == match params_from(params@, from as int) {
                Some(rest) => Some(models(parsed@) + rest),
                None => None,
            },
        decreases params@.len() - from,
    {
        let field_end: usize = find_field_end(params, from);
        let field = &params[from..field_end];
        let code: Option<u16> = match read_field(field) {
            Some(code) => code,
            None => return None,
        };
        let end: usize = if matches!(code, Some(38 | 48 | 58)) {
            match skip_color(params, field_end) {
                Some(end) => end,
                None => return None,
            }
        } else {
            field_end
        };
        let ghost before = models(parsed@);
        let param = SgrParam { code, raw: &params[from..end] };
        parsed.push(param);
        proof {
            assert(models(parsed@) =~= before.push(param@));
            match params_from(params@, end + 1) {
                Some(rest) => {
                    assert(before + (seq![param@] + rest) =~= models(parsed@) + rest);
                },
                None => {},
            }
        }
        if end >= params.len() {
            assert(models(parsed@) + Seq::<ParamModel>::empty() =~= models(parsed@));
            return Some(parsed);
        }
        from = end + 1;
    }
}

/// A well-formed SGR.
#[derive(Debug)]
pub struct Sgr<'a> {
    params: Vec<SgrParam<'a>>,
    reset: bool,
    inverse_on: bool,
    inverse_off: bool,
}

impl<'a> Sgr<'a> {
    /// The parameters, in order.
    pub closed spec fn params(self) -> Seq<ParamModel> {
        models(self.params@)
    }

    #[verifier::type_invariant]
    closed spec fn well_formed(self) -> bool {
        &&& self.reset == has_code(models(self.params@), 0)
        &&& self.inverse_on == has_code(models(self.params@), 7)
        &&& self.inverse_off == has_code(models(self.params@), 27)
    }

    /// Reads an SGR; `None` for any other bytes.
    pub fn parse(data: &'a [u8]) -> (sgr: Option<Self>)
        ensures
            match sgr_of(data@) {
                Some(params) => sgr is Some && sgr->0.params() == params,
                None => sgr is None,
            },
    {
        if data.len() < 3 || data[0] != ESC || data[1] != BRACKET || data[data.len() - 1] != LOWER_M {
            return None;
        }
        let params = match parse_sgr_params(&data[2..data.len() - 1]) {
            Some(params) => params,
            None => return None,
        };
        let mut reset = false;
        let mut inverse_on = false;
        let mut inverse_off = false;
        let mut i: usize = 0;
        while i < params.len()
            invariant
                i <= params@.len(),
                reset == has_code(models(params@).take(i as int), 0),
                inverse_on == has_code(models(params@).take(i as int), 7),
                inverse_off == has_code(models(params@).take(i as int), 27),
            decreases params@.len() - i,
        {
            proof {
                lemma_has_code_take(models(params@), i as int, 0);
                lemma_has_code_take(models(params@), i as int, 7);
                lemma_has_code_take(models(params@), i as int, 27);
            }
            match params[i].code {
                Some(0) => reset = true,
                Some(7) => inverse_on = true,
                Some(27) => inverse_off = true,
                _ => {},
            }
            i += 1;
        }
        assert(models(params@).take(i as int) =~= models(params@));
        Some(Sgr { params, reset, inverse_on, inverse_off })
    }

    /// Whether it clears all attributes.
    pub fn is_reset(&self) -> (yes: bool)
        ensures
            yes == has_code(self.params(), 0),
    {
        proof {
            use_type_invariant(self);
        }
        self.reset
    }

    /// Whether it turns inverse on.
    pub fn turns_inverse_on(&self) -> (yes: bool)
        ensures
            yes == has_code(self.params(), 7),
    {
        proof {
            use_type_invariant(self);
        }
        self.inverse_on
    }

    /// Whether it turns inverse off.
    pub fn turns_inverse_off(&self) -> (yes: bool)
        ensures
            yes == has_code(self.params(), 27),
    {
        proof {
            use_type_invariant(self);
        }
        self.inverse_off
    }

    /// Appends the SGR without the parameters whose code is `removed`;
    /// nothing where no other is left.
    pub fn write_without(&self, removed: u16, out: &mut Vec<u8>)
        ensures
            final(out)@ == old(out)@ + written(kept_params(self.params(), removed)),
    {
        let ghost all = models(self.params@);
        let mut first = true;
        let mut i: usize = 0;
        assert(out@ + Seq::<u8>::empty() =~= out@);
        while i < self.params.len()
            invariant
                i <= self.params@.len(),
                all == models(self.params@),
                first == (kept_params(all.take(i as int), removed).len() == 0),
                out@ == old(out)@ + if first {
                    seq![]
                } else {
                    seq![ESC, BRACKET] + joined(kept_params(all.take(i as int), removed))
                },
            decreases self.params@.len() - i,
        {
            let param = self.params[i];
            let ghost kept = kept_params(all.take(i as int), removed);
            proof {
                assert(all.take(i + 1).drop_last() =~= all.take(i as int));
                assert(all.take(i + 1).last() == param@);
            }
            let dropped: bool = match param.code {
                Some(code) => code == removed,
                None => false,
            };
            if !dropped {
                if first {
                    out.push(ESC);
                    out.push(BRACKET);
                    first = false;
                } else {
                    out.push(SEMICOLON);
                }
                out.extend_from_slice(param.raw);
                proof {
                    assert(kept.push(param@).drop_last() =~= kept);
                    assert(out@ =~= old(out)@ + (seq![ESC, BRACKET] + joined(
                        kept.push(param@),
                    )));
                }
            }
            i += 1;
        }
        assert(all.take(i as int) =~= all);
        if !first {
            out.push(LOWER_M);
        }
        assert(out@ =~= old(out)@ + written(kept_params(self.params(), removed)));
    }
}

proof fn lemma_has_code_take(params: Seq<ParamModel>, len: int, code: u16)
    requires
        0 <= len < params.len(),
    ensures
        has_code(params.take(len + 1), code) == (has_code(params.take(len), code)
            || params[len].code == Some(code)),
{
    let longer = params.take(len + 1);
    let shorter = params.take(len);
    if has_code(shorter, code) {
        let i = choose|i: int| 0 <= i < shorter.len() && (#[trigger] shorter[i]).code == Some(code);
        assert(longer[i].code == Some(code));
    }
    if params[len].code == Some(code) {
        assert(longer[len].code == Some(code));
    }
    if has_code(longer, code) {
        let i = choose|i: int| 0 <= i < longer.len() && (#[trigger] longer[i]).code == Some(code);
        if i < len {
            assert(shorter[i].code == Some(code));
        }
    }
}

/// Whether `byte` may stand between `ESC [` and `m` in an SGR.
pub open spec fn is_param_byte(byte: u8) -> bool {
    bytes::is_digit(byte) || byte == COLON || byte == SEMICOLON
}

proof fn lemma_field_bytes(params: Seq<u8>, from: int)
    requires
        0 <= from <= params.len(),
        digits_and_colons(bytes::field_at(params, from)),
    ensures
        from <= bytes::field_end(params, from) <= params.len(),
        forall|i: int|
            from <= i < params.len() && i <= bytes::field_end(params, from) ==> is_param_byte(
                #[trigger] params[i],
            ),
{
    bytes::lemma_field_end(params, from);
    let field = bytes::field_at(params, from);
    assert forall|i: int|
        from <= i < params.len() && i <= bytes::field_end(params, from) implies is_param_byte(
        #[trigger] params[i],
    ) by {
        if i < bytes::field_end(params, from) {
            assert(field[i - from] == params[i]);
        }
    }
}

proof fn lemma_values_bytes(params: Seq<u8>, end: int, count: nat)
    requires
        0 <= end <= params.len(),
        values_end(params, end, count) is Some,
    ensures
        end <= values_end(params, end, count)->0 <= params.len(),
        forall|i: int|
            end < i < params.len() && i <= values_end(params, end, count)->0 ==> is_param_byte(
                #[trigger] params[i],
            ),
        ({
            let last = values_end(params, end, count)->0;
            last == end || last == params.len() || params[last] == SEMICOLON
        }),
    decreases count,
{
    if count > 0 {
        lemma_field_bytes(params, end + 1);
        bytes::lemma_field_end(params, end + 1);
        lemma_values_bytes(params, bytes::field_end(params, end + 1), (count - 1) as nat);
    }
}

/// The end of a parameter is the end of `params` or a `;`, and all bytes up
/// to it may stand in an SGR.
proof fn lemma_param_bytes(params: Seq<u8>, from: int)
    requires
        0 <= from <= params.len(),
        param_end(params, from) is Some,
    ensures
        from <= param_end(params, from)->0 <= params.len(),
        param_end(params, from)->0 < params.len() ==> params[param_end(params, from)->0]
            == SEMICOLON,
        forall|i: int|
            from <= i < params.len() && i <= param_end(params, from)->0 ==> is_param_byte(
                #[trigger] params[i],
            ),
{
    let field = bytes::field_at(params, from);
    let end = bytes::field_end(params, from);
    lemma_field_bytes(params, from);
    bytes::lemma_field_end(params, from);
    if is_extended_color(field_code(field)) {
        let mode = bytes::field_at(params, end + 1);
        let mode_end = bytes::field_end(params, end + 1);
        bytes::lemma_field_end(params, end + 1);
        assert(mode.len() == 1);
        assert(seq![0x35u8][0] == 0x35 && seq![0x32u8][0] == 0x32);
        lemma_field_bytes(params, end + 1);
        if mode == seq![0x35u8] {
            lemma_values_bytes(params, mode_end, 1);
        } else {
            lemma_values_bytes(params, mode_end, 3);
        }
    }
}

proof fn lemma_params_from(params: Seq<u8>, from: int)
    requires
        0 <= from <= params.len(),
        params_from(params, from) is Some,
    ensures
        params_from(params, from)->0.len() > 0,
        joined(params_from(params, from)->0) == params.skip(from),
        forall|i: int| from <= i < params.len() ==> is_param_byte(#[trigger] params[i]),
    decreases params.len() - from,
{
    lemma_param_bytes(params, from);
    let end = param_end(params, from)->0;
    let param = ParamModel {
        code: field_code(bytes::field_at(params, from)),
        raw: params.subrange(from, end),
    };
    let rest = params_from(params, end + 1)->0;
    if end < params.len() {
        lemma_params_from(params, end + 1);
        lemma_joined_first(param, rest);
        assert(params.skip(from) =~= param.raw + seq![SEMICOLON] + params.skip(end + 1));
    } else {
        assert(rest =~= seq![]);
        assert(seq![param] + rest =~= seq![param]);
        assert(params.skip(from) =~= param.raw);
    }
}

proof fn lemma_joined_first(param: ParamModel, rest: Seq<ParamModel>)
    requires
        rest.len() > 0,
    ensures
        joined(seq![param] + rest) == param.raw + seq![SEMICOLON] + joined(rest),
    decreases rest.len(),
{
    let all = seq![param] + rest;
    if rest.len() == 1 {
        assert(all.drop_last() =~= seq![param]);
        assert(all.last() == rest[0]);
        assert(joined(seq![param]) == param.raw);
        assert(joined(all) =~= param.raw + seq![SEMICOLON] + joined(rest));
    } else {
        lemma_joined_first(param, rest.drop_last());
        assert(all.drop_last() =~= seq![param] + rest.drop_last());
        assert(all.last() == rest.last());
        assert(joined(all) =~= param.raw + seq![SEMICOLON] + joined(rest));
    }
}

/// A number by itself is one parameter.
pub proof fn lemma_single_param(digits: Seq<u8>)
    requires
        bytes::all_digits(digits),
        !is_extended_color(bytes::decimal_u16(digits)),
    ensures
        sgr_params(digits) == Some(
            seq![ParamModel { code: bytes::decimal_u16(digits), raw: digits }],
        ),
{
    let len = digits.len() as int;
    bytes::lemma_field_end(digits, 0);
    let end = bytes::field_end(digits, 0);
    if end < len {
        assert(bytes::is_digit(digits[end]));
    }
    assert(bytes::field_at(digits, 0) =~= digits);
    assert(!has_subparams(digits)) by {
        if has_subparams(digits) {
            assert(bytes::is_digit(digits[digits.index_of(COLON)]));
        }
    }
    let param = ParamModel { code: bytes::decimal_u16(digits), raw: digits };
    assert(digits.subrange(0, len) =~= digits);
    assert(params_from(digits, len + 1) == Some(Seq::<ParamModel>::empty()));
    assert(seq![param] + Seq::<ParamModel>::empty() =~= seq![param]);
}

/// Writing the parameters that were read of an SGR gives its bytes back; none
/// of them ends a CSI.
pub proof fn reading_keeps_every_byte(data: Seq<u8>)
    requires
        sgr_of(data) is Some,
    ensures
        written(sgr_of(data)->0) == data,
        csi::is_csi(data),
{
    let params = sgr_body(data)->0;
    lemma_params_from(params, 0);
    assert(params.skip(0) =~= params);
    assert(written(sgr_of(data)->0) =~= data);
    csi::lemma_after_final(data, 2);
    assert forall|i: int| 2 <= i < data.len() - 1 implies !csi::is_csi_final(
        #[trigger] data[i],
    ) by {
        assert(is_param_byte(params[i - 2]));
        assert(params[i - 2] == data[i]);
    }
    assert(csi::is_csi_final(data[data.len() - 1]));
}

proof fn lemma_joined_kept(params: Seq<ParamModel>, removed: u16)
    ensures
        model::is_subsequence(
            joined(kept_params(params, removed)),
            joined(params),
        ),
    decreases params.len(),
{
    if params.len() > 0 {
        let before = params.drop_last();
        let last = params.last();
        let kept = kept_params(before, removed);
        let empty = Seq::<u8>::empty();
        lemma_joined_kept(before, removed);
        model::lemma_subsequence_of_itself(last.raw);
        model::lemma_subsequence_of_itself(seq![SEMICOLON] + last.raw);
        if params.len() == 1 {
            assert(before =~= seq![]);
            assert(kept =~= seq![]);
            if last.code != Some(removed) {
                assert(kept.push(last)[0] == last);
            }
        } else if last.code == Some(removed) {
            model::lemma_subsequence_concat(
                joined(kept),
                joined(before),
                empty,
                seq![SEMICOLON] + last.raw,
            );
            assert(joined(kept) + empty =~= joined(kept));
            assert(joined(before) + (seq![SEMICOLON] + last.raw) =~= joined(params));
        } else if kept.len() == 0 {
            model::lemma_subsequence_concat(
                empty,
                joined(before) + seq![SEMICOLON],
                last.raw,
                last.raw,
            );
            assert(kept.push(last)[0] == last);
            assert(empty + last.raw =~= last.raw);
        } else {
            model::lemma_subsequence_concat(
                joined(kept),
                joined(before),
                seq![SEMICOLON] + last.raw,
                seq![SEMICOLON] + last.raw,
            );
            assert(kept.push(last).drop_last() =~= kept);
            assert(joined(kept) + (seq![SEMICOLON] + last.raw) =~= joined(kept.push(last)));
            assert(joined(before) + (seq![SEMICOLON] + last.raw) =~= joined(params));
        }
    }
}

/// Writing an SGR without some of its parameters only removes bytes.
pub proof fn writing_without_removes(data: Seq<u8>, removed: u16)
    requires
        sgr_of(data) is Some,
    ensures
        model::is_subsequence(
            written(kept_params(sgr_of(data)->0, removed)),
            data,
        ),
{
    let params = sgr_of(data)->0;
    let kept = kept_params(params, removed);
    reading_keeps_every_byte(data);
    lemma_joined_kept(params, removed);
    let start = seq![ESC, BRACKET];
    let end = seq![LOWER_M];
    if kept.len() > 0 {
        assert(params.len() > 0);
        model::lemma_subsequence_of_itself(start);
        model::lemma_subsequence_of_itself(end);
        model::lemma_subsequence_concat(
            start,
            start,
            joined(kept),
            joined(params),
        );
        model::lemma_subsequence_concat(
            start + joined(kept),
            start + joined(params),
            end,
            end,
        );
    }
}

} // verus!
