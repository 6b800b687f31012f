//! Filters for the bytes that a child process sends to the user's terminal.
//!
//! Filters are stateful so they can handle escape sequences that span
//! multiple chunks.
use std::borrow::Cow;
use vstd::prelude::*;

pub mod chain;
pub mod csi;
pub mod cursor_shape;
pub mod dropping;
pub mod ink_fake_cursor;
pub mod ink_laws;
pub mod model;
pub mod osc;
pub mod osc_laws;
pub mod osc_title;
pub mod pieces;
pub mod printable;
pub mod relay_laws;
pub mod sgr;
pub mod sgr_laws;
pub mod tmux_osc_passthrough;

pub use chain::FilterChain;
pub use cursor_shape::CursorShapeFilter;
pub use ink_fake_cursor::InkFakeCursorFilter;
pub use osc_title::{DropTitles, OscTitleFilter};
pub use tmux_osc_passthrough::{
    contains_code, tmux_wrap, TmuxOscPassthroughFilter, WrapListed, TMUX_END, TMUX_START,
};

verus! {

/// Stateful byte-stream filter.
///
/// Implementations buffer partial escape sequences across calls and emit
/// them once they can be classified. [`finish`](Self::finish) is called
/// at end of stream so any unfinished pending bytes can be flushed.
pub trait Filter: Send {
    /// What the last of `calls` returns when `calls` are made, in order, on
    /// this filter. This is all that can be seen of a filter's state. Unless
    /// an implementation says otherwise, every chunk is passed on as it is.
    open spec fn reply(&self, calls: Seq<model::Call>) -> Seq<u8> {
        match calls.last() {
            model::Call::Chunk(data) => data,
            model::Call::Finish => seq![],
        }
    }

    /// Whether the bytes that are returned for a chunk are borrowed. Unless an
    /// implementation says otherwise, they always are.
    open spec fn borrows(&self, data: Seq<u8>) -> bool {
        true
    }

    /// Filter a chunk of bytes. The returned slice may borrow from
    /// `data` when no rewriting is needed.
    fn filter<'a>(&mut self, data: &'a [u8]) -> (out: Cow<'a, [u8]>)
        ensures
            out@ == old(self).reply(seq![model::Call::Chunk(data@)]),
            out is Borrowed <==> old(self).borrows(data@),
            forall|later: Seq<model::Call>|
                later.len() > 0 ==> #[trigger] final(self).reply(later) == old(self).reply(
                    seq![model::Call::Chunk(data@)] + later,
                ),
    ;

    /// Flush any bytes the filter was holding back. Called once when the
    /// upstream stream has reached EOF.
    fn finish(&mut self) -> (tail: Vec<u8>)
        ensures
            tail@ == old(self).reply(seq![model::Call::Finish]),
            forall|later: Seq<model::Call>|
                later.len() > 0 ==> #[trigger] final(self).reply(later) == old(self).reply(
                    seq![model::Call::Finish] + later,
                ),
    ;
}

} // verus!
