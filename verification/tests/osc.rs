use std::cell::RefCell;
use tfil::filters::osc::{OscRule, OscScanner};

/// Keeps every OSC and notes its code.
struct Note {
    seen: RefCell<Vec<Option<u16>>>,
}

impl OscRule for Note {
    fn render(&self, code: Option<u16>, sequence: &[u8], out: &mut Vec<u8>) {
        self.seen.borrow_mut().push(code);
        out.extend_from_slice(sequence);
    }
}

struct Never;

impl OscRule for Never {
    fn render(&self, _: Option<u16>, _: &[u8], _: &mut Vec<u8>) {
        panic!("incomplete OSC");
    }
}

#[test]
fn header_is_independent_of_payload_and_chunk_boundaries() {
    for (input, code) in [
        ("\x1b]0;hello;世界\x07", Some(0)),
        ("\x1b]22;pointer\x1b\\", Some(22)),
        ("\x1b]0022;pointer\x07", Some(22)),
        ("\x1b]22\x07", Some(22)),
        ("\x1b]22x;pointer\x07", None),
        ("\x1b]65536;payload\x07", None),
    ] {
        let input = input.as_bytes();
        for split in 0..=input.len() {
            let mut scanner = OscScanner::default();
            let rule = Note { seen: RefCell::new(Vec::new()) };
            let mut output = scanner.filter(&input[..split], &rule).into_owned();
            output.extend_from_slice(&scanner.filter(&input[split..], &rule));
            output.extend(scanner.finish());
            assert_eq!(output, input);
            assert_eq!(*rule.seen.borrow(), [code]);
        }
    }
}

#[test]
fn incomplete_sequences_are_returned_unchanged() {
    let input = "\x1b]0;hello;世界\x1b\\".as_bytes();
    for end in 1..input.len() {
        let mut scanner = OscScanner::default();
        let output = scanner.filter(&input[..end], &Never);
        assert!(output.is_empty());
        assert_eq!(scanner.finish(), input[..end]);
        assert_eq!(scanner.filter(b"text", &Never).as_ref(), b"text");
    }
}
