use std::borrow::Cow;
use tfil::filters::{
    tmux_wrap, CursorShapeFilter, Filter, FilterChain, InkFakeCursorFilter, OscTitleFilter,
    TmuxOscPassthroughFilter,
};

fn all_filters() -> FilterChain {
    FilterChain::new(vec![
        Box::new(InkFakeCursorFilter::new()),
        Box::new(OscTitleFilter::new()),
        Box::new(CursorShapeFilter::new()),
        Box::new(TmuxOscPassthroughFilter::new(vec![22])),
    ])
}

#[test]
fn unchanged_input_remains_borrowed() {
    let input = b"plain text";
    for mut chain in [FilterChain::default(), all_filters()] {
        let result = chain.filter(input);
        assert!(matches!(result, Cow::Borrowed(_)));
        assert!(std::ptr::eq(result.as_ref(), input.as_slice()));
    }
}

struct BorrowSuffix;
impl Filter for BorrowSuffix {
    fn filter<'a>(&mut self, data: &'a [u8]) -> Cow<'a, [u8]> {
        Cow::Borrowed(&data[1..])
    }

    fn finish(&mut self) -> Vec<u8> {
        Vec::new()
    }
}

#[test]
fn borrowed_subslices_of_owned_output_are_preserved() {
    let mut chain = FilterChain::new(vec![
        Box::new(CursorShapeFilter::new()),
        Box::new(BorrowSuffix),
    ]);
    assert_eq!(chain.filter(b"a\x1b[5 qbc").as_ref(), b"bc");
}

struct BorrowStatic;
impl Filter for BorrowStatic {
    fn filter<'a>(&mut self, _: &'a [u8]) -> Cow<'a, [u8]> {
        Cow::Borrowed(b"replacement")
    }

    fn finish(&mut self) -> Vec<u8> {
        Vec::new()
    }
}

#[test]
fn borrowed_static_replacements_of_owned_output_are_preserved() {
    let mut chain = FilterChain::new(vec![
        Box::new(CursorShapeFilter::new()),
        Box::new(BorrowStatic),
    ]);
    assert_eq!(chain.filter(b"a\x1b[5 qbc").as_ref(), b"replacement");
}

#[test]
fn filter_chain_preserves_order_and_transforms_at_every_split() {
    let input = b"\x1b[1;7m \x1b[27m\x1b[5 q\x1b]0;title\x07\x1b]22;pointer\x07";
    let expected = [b"\x1b[1m ".as_slice(), &tmux_wrap(b"\x1b]22;pointer\x07")].concat();
    for split in 0..=input.len() {
        let mut filters = all_filters();
        let mut output = filters.filter(&input[..split]).into_owned();
        output.extend_from_slice(&filters.filter(&input[split..]));
        output.extend(filters.finish());
        assert_eq!(output, expected, "split {split}");
    }
}

#[test]
fn filter_chain_flushes_upstream_tails_through_downstream_filters() {
    for input in [
        b"\x1b]22;pointer\x1b".as_slice(),
        b"\x1b[7m ",
        b"\x1b[7m \x1b]22;pointer\x07",
    ] {
        let mut filters = all_filters();
        let mut output = filters.filter(input).into_owned();
        output.extend(filters.finish());
        let expected = if input.ends_with(b"\x07") {
            [b"\x1b[7m ".as_slice(), &tmux_wrap(b"\x1b]22;pointer\x07")].concat()
        } else {
            input.to_vec()
        };
        assert_eq!(output, expected, "{input:?}");
    }
}
