//! Child output and the controls that are written between its sequences.
use vstd::prelude::*;

verus! {

/// What ends whatever sequence the terminal may be in the middle of:
/// `CAN ESC \ CAN`.
pub const RECOVERY: [u8; 4] = [0x18, 0x1b, 0x5c, 0x18];

/// A `vtparse::VTParser`. What it was fed is `fed`.
#[verifier::external_type_specification]
#[verifier::external_body]
pub struct ExVtParser(vtparse::VTParser);

/// All bytes that `parser` was fed, in order.
pub uninterp spec fn fed(parser: vtparse::VTParser) -> Seq<u8>;

/// Whether a parser that was fed `bytes` is in its ground state: the last
/// escape sequence and the last UTF-8 character are complete.
pub uninterp spec fn ground_after(bytes: Seq<u8>) -> bool;

/// `vtparse::VTParser::new`: a parser that was fed nothing, in its ground
/// state.
#[verifier::external_body]
fn new_parser() -> (parser: vtparse::VTParser)
    ensures
        fed(parser) == Seq::<u8>::empty(),
        ground_after(fed(parser)),
{
    vtparse::VTParser::new()
}

/// `vtparse::VTParser::parse`, which goes byte by byte, with the actions that
/// it finds thrown away.
#[verifier::external_body]
fn feed_parser(parser: &mut vtparse::VTParser, bytes: &[u8])
    ensures
        fed(*final(parser)) == fed(*old(parser)) + bytes@,
{
    parser.parse(bytes, &mut vtparse::CollectingVTActor::default())
}

/// `vtparse::VTParser::is_ground`, which depends on the bytes that were fed
/// alone. After which bytes it holds is not stated.
#[verifier::external_body]
fn parser_is_ground(parser: &vtparse::VTParser) -> (yes: bool)
    ensures
        yes == ground_after(fed(*parser)),
{
    parser.is_ground()
}

/// The state of a terminal's output.
#[verifier::ext_equal]
pub struct TerminalModel {
    /// The child's output, where its sequences are tracked.
    pub output: Option<Seq<u8>>,
    /// Controls that wait for the end of a sequence.
    pub pending: Seq<u8>,
    /// Whether a write has failed, so that it is not known what the terminal
    /// was sent.
    pub failed: bool,
}

impl TerminalModel {
    /// A terminal to which nothing has been written.
    pub open spec fn opened(track_sequences: bool) -> TerminalModel {
        TerminalModel {
            output: if track_sequences {
                Some(seq![])
            } else {
                None
            },
            pending: seq![],
            failed: false,
        }
    }

    /// Whether controls can be written: no sequence of the child's is
    /// incomplete.
    pub open spec fn at_boundary(self) -> bool {
        match self.output {
            Some(output) => ground_after(output),
            None => true,
        }
    }

    /// Controls wait only where they have to.
    pub open spec fn settled(self) -> bool {
        self.pending.len() > 0 ==> !self.at_boundary()
    }

    /// After more output of the child.
    pub open spec fn after_output(self, bytes: Seq<u8>) -> TerminalModel {
        TerminalModel {
            output: match self.output {
                Some(output) => Some(output + bytes),
                None => None,
            },
            ..self
        }
    }

    /// The controls that are written when `extra` joins those that wait.
    pub open spec fn released(self, extra: Seq<u8>) -> Seq<u8> {
        if self.at_boundary() {
            self.pending + extra
        } else {
            seq![]
        }
    }

    /// After `extra` has joined the controls that wait.
    pub open spec fn after_extra(self, extra: Seq<u8>) -> TerminalModel {
        TerminalModel {
            pending: if self.at_boundary() {
                seq![]
            } else {
                self.pending + extra
            },
            ..self
        }
    }

    /// The last bytes that are written: where the terminal may be in the
    /// middle of a sequence, that is ended first, and controls that were
    /// waiting for its end are dropped.
    pub open spec fn finishing(self, bytes: Seq<u8>) -> Seq<u8> {
        if self.at_boundary() && !self.failed {
            self.pending + bytes
        } else {
            RECOVERY@ + bytes
        }
    }
}

/// Serializes child output and synthetic terminal controls.  Controls must
/// wait for a complete escape sequence or UTF-8 character.
pub struct TerminalOutput {
    parser: Option<vtparse::VTParser>,
    pending: Vec<u8>,
    failed: bool,
}

impl View for TerminalOutput {
    type V = TerminalModel;

    closed spec fn view(&self) -> TerminalModel {
        TerminalModel {
            output: match self.parser {
                Some(parser) => Some(fed(parser)),
                None => None,
            },
            pending: self.pending@,
            failed: self.failed,
        }
    }
}

impl TerminalOutput {
    /// Creates an output to which nothing has been written. Without
    /// `track_sequences`, controls never wait.
    pub fn new(track_sequences: bool) -> (output: Self)
        ensures
            output@ == (TerminalModel {
                output: if track_sequences {
                    Some(seq![])
                } else {
                    None
                },
                pending: seq![],
                failed: false,
            }),
            output@.at_boundary(),
            output@ == TerminalModel::opened(track_sequences),
    {
        let parser = if track_sequences {
            Some(new_parser())
        } else {
            None
        };
        TerminalOutput { parser, pending: Vec::new(), failed: false }
    }

    fn at_boundary(&self) -> (yes: bool)
        ensures
            yes == self@.at_boundary(),
    {
        match &self.parser {
            Some(parser) => parser_is_ground(parser),
            None => true,
        }
    }

    /// Takes output of the child, which is to be written at once, and controls
    /// that belong behind it. Returns the controls to write behind the output.
    pub fn write_child(&mut self, bytes: &[u8], extra: &[u8]) -> (released: Vec<u8>)
        ensures
            ({
                let written = old(self)@.after_output(bytes@);
                &&& released@ == written.released(extra@)
                &&& final(self)@ == written.after_extra(extra@)
            }),
    {
        if let Some(parser) = &mut self.parser {
            feed_parser(parser, bytes);
        }
        self.write_extra(extra)
    }

    /// Takes controls, which must be complete terminal control sequences.
    /// Returns the controls to write now.
    pub fn write_extra(&mut self, bytes: &[u8]) -> (released: Vec<u8>)
        ensures
            released@ == old(self)@.released(bytes@),
            final(self)@ == old(self)@.after_extra(bytes@),
    {
        let at_boundary: bool = self.at_boundary();
        let released = release(&mut self.pending, bytes, at_boundary);
        assert(self@ =~= old(self)@.after_extra(bytes@));
        released
    }

    /// Notes that it is not known how much the terminal was sent.
    pub fn mark_write_failed(&mut self)
        ensures
            final(self)@ == (TerminalModel { failed: true, ..old(self)@ }),
    {
        self.failed = true;
    }

    /// Whether it is not known how much the terminal was sent.
    pub fn has_failed(&self) -> (yes: bool)
        ensures
            yes == self@.failed,
    {
        self.failed
    }

    /// Returns the last bytes to write: `bytes`, behind whatever ends the
    /// sequence that the terminal may be in the middle of.
    pub fn finish(&self, bytes: &[u8]) -> (written: Vec<u8>)
        ensures
            written@ == self@.finishing(bytes@),
    {
        closing(&self.pending, bytes, self.at_boundary(), self.failed)
    }
}

/// Lets `extra` join the controls that wait. Returns those to write now: all of
/// them where every sequence of the child's is complete, and none elsewhere.
pub fn release(pending: &mut Vec<u8>, extra: &[u8], at_boundary: bool) -> (released: Vec<u8>)
    ensures
        released@ == if at_boundary {
            old(pending)@ + extra@
        } else {
            seq![]
        },
        final(pending)@ == if at_boundary {
            seq![]
        } else {
            old(pending)@ + extra@
        },
{
    pending.extend_from_slice(extra);
    let mut released: Vec<u8> = Vec::new();
    if at_boundary {
        released.append(pending);
    }
    released
}

/// The last bytes to write: where the terminal may be in the middle of a
/// sequence, that is ended first, and controls that were waiting for its end are
/// dropped.
pub fn closing(pending: &[u8], bytes: &[u8], at_boundary: bool, failed: bool) -> (written: Vec<u8>)
    ensures
        written@ == if at_boundary && !failed {
            pending@ + bytes@
        } else {
            RECOVERY@ + bytes@
        },
{
    let mut written: Vec<u8> = Vec::new();
    if at_boundary && !failed {
        written.extend_from_slice(pending);
    } else {
        written.extend_from_slice(&RECOVERY);
    }
    written.extend_from_slice(bytes);
    written
}

/// One call made on an output.
pub enum TerminalCall {
    /// `write_child`.
    Child { bytes: Seq<u8>, extra: Seq<u8> },
    /// `write_extra`.
    Extra(Seq<u8>),
}

/// The controls that a call hands over.
pub open spec fn handed(call: TerminalCall) -> Seq<u8> {
    match call {
        TerminalCall::Child { bytes, extra } => extra,
        TerminalCall::Extra(extra) => extra,
    }
}

/// The child's output up to which a call writes, before any controls.
pub open spec fn seen(terminal: TerminalModel, call: TerminalCall) -> TerminalModel {
    match call {
        TerminalCall::Child { bytes, extra } => terminal.after_output(bytes),
        TerminalCall::Extra(extra) => terminal,
    }
}

/// The state after `calls`, and all controls that they release.
pub open spec fn after_calls(terminal: TerminalModel, calls: Seq<TerminalCall>) -> (
    TerminalModel,
    Seq<u8>,
)
    decreases calls.len(),
{
    if calls.len() == 0 {
        (terminal, seq![])
    } else {
        let (before, released) = after_calls(terminal, calls.drop_last());
        let written = seen(before, calls.last());
        (
            written.after_extra(handed(calls.last())),
            released + written.released(handed(calls.last())),
        )
    }
}

/// All controls that `calls` hand over.
pub open spec fn all_handed(calls: Seq<TerminalCall>) -> Seq<u8>
    decreases calls.len(),
{
    if calls.len() == 0 {
        seq![]
    } else {
        all_handed(calls.drop_last()) + handed(calls.last())
    }
}

/// No control is lost, doubled or overtaken by another: those that have been
/// released and those that wait are all that were handed over, in order.
pub proof fn controls_keep_their_order(terminal: TerminalModel, calls: Seq<TerminalCall>)
    ensures
        ({
            let (after, released) = after_calls(terminal, calls);
            released + after.pending == terminal.pending + all_handed(calls)
        }),
    decreases calls.len(),
{
    let (after, released) = after_calls(terminal, calls);
    if calls.len() > 0 {
        let (before, earlier) = after_calls(terminal, calls.drop_last());
        let extra = handed(calls.last());
        controls_keep_their_order(terminal, calls.drop_last());
        assert(released + after.pending =~= (earlier + before.pending) + extra);
        assert((terminal.pending + all_handed(calls.drop_last())) + extra =~= terminal.pending
            + all_handed(calls));
    } else {
        assert(released + after.pending =~= terminal.pending + all_handed(calls));
    }
}

/// Controls are never written into the middle of a sequence, and never wait
/// where there is none: a call releases controls only where all sequences of
/// the child's are complete, and there it leaves none waiting.
pub proof fn controls_wait_for_a_boundary(terminal: TerminalModel, calls: Seq<TerminalCall>)
    requires
        terminal.settled(),
    ensures
        after_calls(terminal, calls).0.settled(),
        calls.len() > 0 ==> ({
            let written = seen(after_calls(terminal, calls.drop_last()).0, calls.last());
            let released = written.released(handed(calls.last()));
            &&& released.len() > 0 ==> written.at_boundary()
            &&& written.at_boundary() ==> after_calls(terminal, calls).0.pending.len() == 0
        }),
    decreases calls.len(),
{
    if calls.len() > 0 {
        controls_wait_for_a_boundary(terminal, calls.drop_last());
    }
}

/// Whatever the child left incomplete, the closing controls are written as
/// they are, behind it: at a boundary nothing stands between, and elsewhere
/// the sequence is ended first.
pub proof fn closing_controls_are_always_written(terminal: TerminalModel, bytes: Seq<u8>)
    requires
        terminal.settled(),
    ensures
        terminal.at_boundary() && !terminal.failed ==> terminal.finishing(bytes) == bytes,
        !terminal.at_boundary() || terminal.failed ==> terminal.finishing(bytes) == RECOVERY@
            + bytes,
{
    assert(terminal.pending.len() == 0 ==> terminal.pending + bytes =~= bytes);
}

/// Controls are written at once, behind those that wait, where the child's
/// output is not tracked or ends between two sequences; inside a sequence all of
/// them wait. What the child sent is tracked whole.
pub proof fn controls_wait_only_inside_a_sequence(
    terminal: TerminalModel,
    bytes: Seq<u8>,
    extra: Seq<u8>,
)
    ensures
        ({
            let seen = terminal.after_output(bytes);
            let after = seen.after_extra(extra);
            let inside = terminal.output is Some && !ground_after(terminal.output->0 + bytes);
            &&& seen.released(extra) == if inside {
                seq![]
            } else {
                terminal.pending + extra
            }
            &&& after.pending == if inside {
                terminal.pending + extra
            } else {
                seq![]
            }
            &&& after.failed == terminal.failed
            &&& after.output == match terminal.output {
                Some(output) => Some(output + bytes),
                None => None,
            }
        }),
{
}

/// The last bytes are the closing controls, behind the controls that wait, or
/// behind `CAN ESC \\ CAN` where the terminal may be inside a sequence: the
/// child's last one is incomplete, or a write has failed.
pub proof fn the_closing_ends_open_sequences(terminal: TerminalModel, bytes: Seq<u8>)
    ensures
        ({
            let inside = terminal.failed || terminal.output is Some && !ground_after(
                terminal.output->0,
            );
            terminal.finishing(bytes) == if inside {
                seq![0x18u8, 0x1bu8, 0x5cu8, 0x18u8] + bytes
            } else {
                terminal.pending + bytes
            }
        }),
{
    assert(RECOVERY@ =~= seq![0x18u8, 0x1bu8, 0x5cu8, 0x18u8]);
}

/// At first nothing waits and nothing has failed. The child's sequences are
/// tracked, from the first byte on, exactly where that was asked for; otherwise
/// controls are written at once, whatever the child sends.
pub proof fn terminals_open_with_nothing_written(bytes: Seq<u8>, extra: Seq<u8>)
    ensures
        ({
            let following = TerminalModel::opened(true);
            let plain = TerminalModel::opened(false);
            &&& following.after_output(bytes).output == Some(bytes)
            &&& following.pending.len() == 0 && !following.failed
            &&& plain.after_output(bytes) == plain
            &&& plain.after_output(bytes).released(extra) == extra
            &&& plain.finishing(extra) == extra
        }),
{
    let none = Seq::<u8>::empty();
    assert(none + bytes =~= bytes);
    assert(none + extra =~= extra);
}

} // verus!
