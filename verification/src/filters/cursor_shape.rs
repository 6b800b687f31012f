//! Dropping cursor shapes.
use std::borrow::Cow;
use vstd::prelude::*;

use crate::bytes::ESC;
use crate::filters::dropping::{self, CsiDropper, Dropped};
use crate::filters::{model, Filter};

verus! {

/// Drops DECSCUSR (`CSI Pn SP q`) so child programs cannot change the
/// terminal's cursor shape. Other CSI sequences are passed through.
#[derive(Debug)]
pub struct CursorShapeFilter {
    dropper: CsiDropper,
}

/// What becomes of a byte: sequences that set the cursor shape are dropped.
pub open spec fn cursor_shape_step() -> model::ByteStep {
    dropping::drop_step(Dropped::CursorShape)
}

impl CursorShapeFilter {
    /// The bytes that are held back.
    pub closed spec fn held(self) -> Seq<u8> {
        self.dropper.held()
    }

    #[verifier::type_invariant]
    closed spec fn well_formed(self) -> bool {
        self.dropper.well_formed() && self.dropper.kind() == Dropped::CursorShape
    }

    /// Creates an empty filter.
    pub fn new() -> (filter: Self)
        ensures
            filter.held() == Seq::<u8>::empty(),
    {
        CursorShapeFilter { dropper: CsiDropper::new(Dropped::CursorShape) }
    }
}

impl Default for CursorShapeFilter {
    fn default() -> (filter: Self)
        ensures
            filter.held() == Seq::<u8>::empty(),
    {
        CursorShapeFilter::new()
    }
}

impl Filter for CursorShapeFilter {
    open spec fn reply(&self, calls: Seq<model::Call>) -> Seq<u8> {
        model::answers(cursor_shape_step(), self.held(), calls).1
    }

    open spec fn borrows(&self, data: Seq<u8>) -> bool {
        self.held().len() == 0 && !data.contains(ESC)
    }

    fn filter<'a>(&mut self, data: &'a [u8]) -> (out: Cow<'a, [u8]>)
        ensures
            (final(self).held(), out@) == model::feed(
                cursor_shape_step(),
                old(self).held(),
                data@,
            ),
    {
        proof {
            use_type_invariant(&*self);
            model::lemma_answers(cursor_shape_step(), self.held(), model::Call::Chunk(data@));
        }
        let mut dropper = CsiDropper::new(Dropped::CursorShape);
        std::mem::swap(&mut self.dropper, &mut dropper);
        let out = dropper.filter(data);
        self.dropper = dropper;
        out
    }

    fn finish(&mut self) -> (tail: Vec<u8>)
        ensures
            tail@ == old(self).held(),
            final(self).held() == Seq::<u8>::empty(),
    {
        proof {
            model::lemma_answers(cursor_shape_step(), self.held(), model::Call::Finish);
        }
        let mut dropper = CsiDropper::new(Dropped::CursorShape);
        std::mem::swap(&mut self.dropper, &mut dropper);
        dropper.finish()
    }
}

/// Of a stream exactly the sequences that set the cursor shape are dropped,
/// however the stream is cut, and none is left: not behind a lone ESC, and not
/// one that formed where another was taken out. Everything else keeps its bytes
/// and its order.
pub proof fn only_cursor_shapes_are_dropped(data: Seq<u8>)
    ensures
        ({
            let (held, out) = model::feed(cursor_shape_step(), seq![], data);
            &&& out + held == dropping::without(Dropped::CursorShape, data)
            &&& dropping::is_free_of(Dropped::CursorShape, out + held)
        }),
{
    dropping::exactly_these_are_dropped(Dropped::CursorShape, data);
    dropping::none_of_these_is_left(Dropped::CursorShape, data);
}

} // verus!
