//! Dropping titles.
use std::borrow::Cow;
use vstd::prelude::*;

use crate::bytes::ESC;
use crate::filters::osc::{self, OscRule, OscScanner};
use crate::filters::{model, Filter};

verus! {

/// Drops OSC 0, 1 and 2 and keeps every other OSC.
#[derive(Debug)]
pub struct DropTitles;

impl OscRule for DropTitles {
    open spec fn rendering(&self, code: Option<u16>, sequence: Seq<u8>) -> Seq<u8> {
        if code is Some && code->0 <= 2 {
            seq![]
        } else {
            sequence
        }
    }

    fn render(&self, code: Option<u16>, sequence: &[u8], out: &mut Vec<u8>) {
        if !matches!(code, Some(0..=2)) {
            out.extend_from_slice(sequence);
        }
        assert(out@ =~= old(out)@ + self.rendering(code, sequence@));
    }
}

/// Drops OSC 0/1/2 (icon name and window title); other OSCs retain their bytes.
#[derive(Debug)]
pub struct OscTitleFilter {
    scanner: OscScanner,
}

impl OscTitleFilter {
    /// The bytes that are held back.
    pub closed spec fn held(self) -> Seq<u8> {
        self.scanner.held()
    }

    #[verifier::type_invariant]
    closed spec fn well_formed(self) -> bool {
        self.scanner.well_formed()
    }

    /// Creates an empty filter.
    pub fn new() -> (filter: Self)
        ensures
            filter.held() == Seq::<u8>::empty(),
    {
        OscTitleFilter { scanner: OscScanner::new() }
    }
}

impl Default for OscTitleFilter {
    fn default() -> (filter: Self)
        ensures
            filter.held() == Seq::<u8>::empty(),
    {
        OscTitleFilter::new()
    }
}

impl Filter for OscTitleFilter {
    open spec fn reply(&self, calls: Seq<model::Call>) -> Seq<u8> {
        model::answers(osc::osc_step(DropTitles), self.held(), calls).1
    }

    open spec fn borrows(&self, data: Seq<u8>) -> bool {
        self.held().len() == 0 && !data.contains(ESC)
    }

    fn filter<'a>(&mut self, data: &'a [u8]) -> (out: Cow<'a, [u8]>)
        ensures
            (final(self).held(), out@) == model::feed(
                osc::osc_step(DropTitles),
                old(self).held(),
                data@,
            ),
    {
        proof {
            use_type_invariant(&*self);
            model::lemma_answers(osc::osc_step(DropTitles), self.held(), model::Call::Chunk(data@));
        }
        let mut scanner = OscScanner::new();
        std::mem::swap(&mut self.scanner, &mut scanner);
        let out = scanner.filter(data, &DropTitles);
        self.scanner = scanner;
        out
    }

    fn finish(&mut self) -> (tail: Vec<u8>)
        ensures
            tail@ == old(self).held(),
            final(self).held() == Seq::<u8>::empty(),
    {
        proof {
            model::lemma_answers(osc::osc_step(DropTitles), self.held(), model::Call::Finish);
        }
        let mut scanner = OscScanner::new();
        std::mem::swap(&mut self.scanner, &mut scanner);
        scanner.finish()
    }
}

/// Whether a unit of a stream sets an icon name or a window title.
pub open spec fn is_title(unit: Seq<u8>) -> bool {
    osc::is_osc(unit) && osc::osc_code(unit) is Some && osc::osc_code(unit)->0 <= 2
}

/// Of a stream exactly the titles are dropped, however the stream is cut;
/// everything else keeps its bytes and its order.
pub proof fn only_titles_are_dropped(data: Seq<u8>, units: Seq<Seq<u8>>, tail: Seq<u8>)
    requires
        osc::splits_into(DropTitles, data, units, tail),
    ensures
        model::feed(osc::osc_step(DropTitles), seq![], data) == (
            tail,
            model::concat(
                units.map_values(
                    |unit: Seq<u8>|
                        if is_title(unit) {
                            seq![]
                        } else {
                            unit
                        },
                ),
            ),
        ),
{
    osc::only_oscs_are_rendered(DropTitles, data, units, tail);
    let rendered = units.map_values(|unit: Seq<u8>| osc::unit_output(DropTitles, unit));
    let expected = units.map_values(
        |unit: Seq<u8>|
            if is_title(unit) {
                seq![]
            } else {
                unit
            },
    );
    assert forall|i: int| 0 <= i < units.len() implies rendered[i] == expected[i] by {
        osc::lemma_unit_parts(DropTitles, units[i]);
        assert(osc::is_unit(DropTitles, units[i]));
    }
    assert(rendered =~= expected);
}

/// No title is left in what is let out of any stream, not even one that formed
/// where another was dropped: it passes the filter again unchanged. Bytes are
/// only removed.
pub proof fn no_title_is_left(data: Seq<u8>)
    ensures
        ({
            let (held, out) = model::feed(osc::osc_step(DropTitles), seq![], data);
            &&& model::feed(osc::osc_step(DropTitles), seq![], out) == (Seq::<u8>::empty(), out)
            &&& model::is_subsequence(out + held, data)
        }),
{
    osc::filtering_twice_is_filtering_once(DropTitles, data);
}

/// A title leaves no trace, also behind lone ESCs.
pub proof fn titles_leave_no_trace(escapes: Seq<u8>, title: Seq<u8>)
    requires
        osc::leading_escapes(escapes) == escapes.len(),
        is_title(title),
    ensures
        model::feed(osc::osc_step(DropTitles), escapes, title) == (escapes, Seq::<u8>::empty()),
{
    osc::dropped_oscs_leave_no_trace(DropTitles, escapes, title);
}

} // verus!
