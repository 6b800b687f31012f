//! One PTY session: what readers, writers and the coordinator between them
//! decide.
//!
//! The coordinator owns the UI model.  Readers and writers exchange bounded
//! messages; each writer owns its stream for the whole session.
use vstd::prelude::*;

pub mod buffer;
pub mod coordinator;
pub mod laws;
pub mod reader;
pub mod stream_laws;
pub mod terminal_writer;
pub mod workers;

verus! {

/// The most bytes that are read, sent or written at once.
pub const CHUNK_SIZE: usize = 65536;

/// The most commands that the terminal writer takes for one flush.
pub const MAX_OUTPUT_BATCH: usize = 8;

/// `ESC [ ? 2 5 h`, which shows the cursor.
pub const CURSOR_SHOW: [u8; 6] = [0x1b, 0x5b, 0x3f, 0x32, 0x35, 0x68];

/// What a reader hands on.
#[derive(Debug)]
pub enum ReadEvent {
    Data(Vec<u8>),
    Eof,
}

/// What the terminal writer is told.
#[derive(Debug)]
pub enum TerminalCommand {
    /// Output of the child, and controls that belong behind it.
    Output { bytes: Vec<u8>, extra: Vec<u8> },
    /// Controls.
    Controls(Vec<u8>),
    /// The closing controls. Nothing follows.
    Finish(Vec<u8>),
}

/// A command to the terminal writer, as mathematics.
#[verifier::ext_equal]
pub enum TerminalOrder {
    Output { bytes: Seq<u8>, extra: Seq<u8> },
    Controls(Seq<u8>),
    Finish(Seq<u8>),
}

impl View for TerminalCommand {
    type V = TerminalOrder;

    open spec fn view(&self) -> TerminalOrder {
        match self {
            TerminalCommand::Output { bytes, extra } => TerminalOrder::Output {
                bytes: bytes@,
                extra: extra@,
            },
            TerminalCommand::Controls(bytes) => TerminalOrder::Controls(bytes@),
            TerminalCommand::Finish(bytes) => TerminalOrder::Finish(bytes@),
        }
    }
}

impl TerminalOrder {
    /// The number of bytes that a command brings.
    pub open spec fn byte_len(self) -> nat {
        match self {
            TerminalOrder::Output { bytes, extra } => bytes.len() + extra.len(),
            TerminalOrder::Controls(bytes) => bytes.len(),
            TerminalOrder::Finish(bytes) => bytes.len(),
        }
    }
}

/// What the child's input writer is told.
#[derive(Debug)]
pub enum InputCommand {
    Data(Vec<u8>),
    /// Close the child's input. Nothing follows.
    Eof,
}

/// A command to the child's input writer, as mathematics.
#[verifier::ext_equal]
pub enum InputOrder {
    Data(Seq<u8>),
    Eof,
}

impl View for InputCommand {
    type V = InputOrder;

    open spec fn view(&self) -> InputOrder {
        match self {
            InputCommand::Data(bytes) => InputOrder::Data(bytes@),
            InputCommand::Eof => InputOrder::Eof,
        }
    }
}

/// A child's exit code as the number that a session returns: the same bits,
/// signed.
pub open spec fn signed_code(code: u32) -> int {
    if code <= i32::MAX {
        code as int
    } else {
        code - 0x1_0000_0000
    }
}

/// What a session returns.
pub open spec fn session_outcome<E>(run: Result<(), E>, waited: Result<u32, E>) -> Result<i32, E> {
    match (run, waited) {
        (Err(error), _) => Err(error),
        (Ok(_), Err(error)) => Err(error),
        (Ok(_), Ok(code)) => Ok(signed_code(code) as i32),
    }
}

/// What a session returns, from how the coordinator ended and from what waiting
/// for the child gave: the coordinator's error, or else the error of waiting, or
/// else the child's exit code.
pub fn session_result<E>(run: Result<(), E>, waited: Result<u32, E>) -> (result: Result<i32, E>)
    ensures
        match run {
            Err(error) => result == Err::<i32, E>(error),
            Ok(_) => match waited {
                Err(error) => result == Err::<i32, E>(error),
                Ok(code) => result is Ok && result->Ok_0 == signed_code(code),
            },
        },
        result == session_outcome(run, waited),
{
    match run {
        Err(error) => Err(error),
        Ok(_) => match waited {
            Err(error) => Err(error),
            Ok(code) => Ok(
                if code <= 0x7fff_ffff {
                    code as i32
                } else {
                    -((0xffff_ffff - code) as i32) - 1
                },
            ),
        },
    }
}

/// Every error of a session is returned, the coordinator's first; without one
/// the child's exit code is, as a signed number with the same bits: codes below
/// 2 to the 31st as they are, and the others less 2 to the 32nd.
pub proof fn sessions_return_the_exit_code<E>(run: Result<(), E>, waited: Result<u32, E>)
    ensures
        run is Err ==> session_outcome(run, waited) == Err::<i32, E>(run->Err_0),
        run is Ok && waited is Err ==> session_outcome(run, waited) == Err::<i32, E>(
            waited->Err_0,
        ),
        run is Ok && waited is Ok ==> {
            let code = waited->Ok_0;
            let returned = session_outcome(run, waited);
            &&& returned is Ok
            &&& returned->Ok_0 == code || returned->Ok_0 == code - 0x1_0000_0000
        },
{
}

} // verus!
