//! Command-line options.
use vstd::prelude::*;

use crate::bytes::{self, ESC, SLASH};
use crate::filters::dropping::Dropped;
use crate::filters::model::Behaviour;
use crate::filters::{
    chain, contains_code, cursor_shape, dropping, ink_fake_cursor, ink_laws, model, osc,
    CursorShapeFilter, DropTitles, Filter, FilterChain, InkFakeCursorFilter, OscTitleFilter,
    TmuxOscPassthroughFilter, WrapListed,
};
use crate::views;

verus! {

/// The options of a run.
#[derive(Debug)]
pub struct Cli {
    /// Drop DECSCUSR (cursor shape) sequences.
    pub strip_cursor_shape: bool,
    /// Strip Ink's fake cursor sequences so the terminal's native cursor shows
    /// through.
    pub strip_ink_fake_cursor: bool,
    /// Drop OSC 0/1/2 sequences (icon name and window title).
    pub strip_osc_titles: bool,
    /// Make Codex CLI's marked numbered menus mouse-driven.
    pub codex_mouse_ui: bool,
    /// The codes of the OSC sequences to wrap in a tmux passthrough.
    pub tmux_osc_passthrough: Vec<u16>,
    /// The file to write the output to before it is filtered.
    pub debug_dump: Option<String>,
    /// The command to run.
    pub command: Option<String>,
    /// The arguments to pass to the command.
    pub args: Vec<String>,
}

impl Cli {
    /// What each filter of the output does, in processing order. A filter is
    /// there only where its option is given.
    pub open spec fn stages(self) -> Seq<Behaviour> {
        let none = Seq::<Behaviour>::empty();
        let ink = if self.strip_ink_fake_cursor {
            none.push(chain::chain_behaviour(ink_fake_cursor::ink_stages(seq![], seq![])))
        } else {
            none
        };
        let titles = if self.strip_osc_titles {
            ink.push(model::step_behaviour(osc::osc_step(DropTitles), seq![]))
        } else {
            ink
        };
        let shape = if self.strip_cursor_shape {
            titles.push(model::step_behaviour(cursor_shape::cursor_shape_step(), seq![]))
        } else {
            titles
        };
        if self.tmux_osc_passthrough@.len() > 0 {
            shape.push(
                model::step_behaviour(
                    osc::osc_step(WrapListed { codes: self.tmux_osc_passthrough }),
                    seq![],
                ),
            )
        } else {
            shape
        }
    }

    /// The filters of the output.
    pub fn filters(&self) -> (chain: FilterChain)
        ensures
            chain.stages() == self.stages(),
            borrows_plain_text(chain.borrowing(), self.stages().len()),
    {
        let mut chain = FilterChain::default();
        if self.strip_ink_fake_cursor {
            let filter = InkFakeCursorFilter::new();
            let mut boxed: Box<dyn Filter> = Box::new(filter);
            let ghost before = chain.stages();
            let ghost borrowing = chain.borrowing();
            let ghost sent = boxed;
            chain.push(&mut boxed);
            proof {
                let behaviour = chain::chain_behaviour(
                    ink_fake_cursor::ink_stages(seq![], seq![]),
                );
                assert forall|calls: Seq<model::Call>| #[trigger]
                    chain.stages().last()(calls) == behaviour(calls) by {
                    assert(sent.reply(calls) == filter.reply(calls));
                }
                assert forall|data: Seq<u8>| #[trigger]
                    chain.borrowing().last()(data) == !data.contains(ESC) by {
                    assert(sent.borrows(data) == filter.borrows(data));
                }
                lemma_borrows_more(borrowing, chain.borrowing());
                assert(chain.stages().last() =~= behaviour);
                assert(chain.stages() =~= before.push(behaviour));
            }
        }
        if self.strip_osc_titles {
            let filter = OscTitleFilter::new();
            let mut boxed: Box<dyn Filter> = Box::new(filter);
            let ghost before = chain.stages();
            let ghost borrowing = chain.borrowing();
            let ghost sent = boxed;
            chain.push(&mut boxed);
            proof {
                let behaviour = model::step_behaviour(osc::osc_step(DropTitles), seq![]);
                assert forall|calls: Seq<model::Call>| #[trigger]
                    chain.stages().last()(calls) == behaviour(calls) by {
                    assert(sent.reply(calls) == filter.reply(calls));
                }
                assert forall|data: Seq<u8>| #[trigger]
                    chain.borrowing().last()(data) == !data.contains(ESC) by {
                    assert(sent.borrows(data) == filter.borrows(data));
                }
                lemma_borrows_more(borrowing, chain.borrowing());
                assert(chain.stages().last() =~= behaviour);
                assert(chain.stages() =~= before.push(behaviour));
            }
        }
        if self.strip_cursor_shape {
            let filter = CursorShapeFilter::new();
            let mut boxed: Box<dyn Filter> = Box::new(filter);
            let ghost before = chain.stages();
            let ghost borrowing = chain.borrowing();
            let ghost sent = boxed;
            chain.push(&mut boxed);
            proof {
                let behaviour = model::step_behaviour(cursor_shape::cursor_shape_step(), seq![]);
                assert forall|calls: Seq<model::Call>| #[trigger]
                    chain.stages().last()(calls) == behaviour(calls) by {
                    assert(sent.reply(calls) == filter.reply(calls));
                }
                assert forall|data: Seq<u8>| #[trigger]
                    chain.borrowing().last()(data) == !data.contains(ESC) by {
                    assert(sent.borrows(data) == filter.borrows(data));
                }
                lemma_borrows_more(borrowing, chain.borrowing());
                assert(chain.stages().last() =~= behaviour);
                assert(chain.stages() =~= before.push(behaviour));
            }
        }
        if self.tmux_osc_passthrough.len() > 0 {
            let filter = TmuxOscPassthroughFilter::new(self.tmux_osc_passthrough.clone());
            let ghost rule = filter.rule();
            let mut boxed: Box<dyn Filter> = Box::new(filter);
            let ghost before = chain.stages();
            let ghost borrowing = chain.borrowing();
            let ghost sent = boxed;
            chain.push(&mut boxed);
            proof {
                let listed = WrapListed { codes: self.tmux_osc_passthrough };
                assert(rule.codes@ =~= listed.codes@);
                assert(osc::osc_step(rule) =~= osc::osc_step(listed));
                let behaviour = model::step_behaviour(osc::osc_step(listed), seq![]);
                assert forall|calls: Seq<model::Call>| #[trigger]
                    chain.stages().last()(calls) == behaviour(calls) by {
                    assert(sent.reply(calls) == filter.reply(calls));
                }
                assert forall|data: Seq<u8>| #[trigger]
                    chain.borrowing().last()(data) == !data.contains(ESC) by {
                    assert(sent.borrows(data) == filter.borrows(data));
                }
                lemma_borrows_more(borrowing, chain.borrowing());
                assert(chain.stages().last() =~= behaviour);
                assert(chain.stages() =~= before.push(behaviour));
            }
        }
        chain
    }

    /// The behavior options that are given, as they are written on a command
    /// line.
    pub open spec fn wrapper_args(self) -> Seq<Seq<char>> {
        flag(self.strip_cursor_shape, "--strip-cursor-shape"@) + flag(
            self.strip_ink_fake_cursor,
            "--strip-ink-fake-cursor"@,
        ) + flag(self.strip_osc_titles, "--strip-osc-titles"@) + flag(
            self.codex_mouse_ui,
            "--codex-mouse-ui"@,
        ) + flag(
            self.tmux_osc_passthrough@.len() > 0,
            "--tmux-osc-passthrough="@ + codes_text(self.tmux_osc_passthrough@),
        ) + match self.debug_dump {
            Some(path) => seq!["--debug-dump="@ + path@],
            None => seq![],
        }
    }

    /// Rebuild the behavior options as command-line arguments for
    /// embedding into a wrapper script.
    pub fn to_wrapper_args(&self) -> (args: Vec<String>)
        ensures
            views::texts(args@) == self.wrapper_args(),
    {
        let mut args: Vec<String> = Vec::new();
        assert(views::texts(args@) =~= seq![]);
        push_flag(&mut args, self.strip_cursor_shape, "--strip-cursor-shape");
        push_flag(&mut args, self.strip_ink_fake_cursor, "--strip-ink-fake-cursor");
        push_flag(&mut args, self.strip_osc_titles, "--strip-osc-titles");
        push_flag(&mut args, self.codex_mouse_ui, "--codex-mouse-ui");
        if self.tmux_osc_passthrough.len() > 0 {
            let mut arg: String = String::new();
            arg.append("--tmux-osc-passthrough=");
            push_codes(&mut arg, &self.tmux_osc_passthrough);
            push_flag(&mut args, true, arg.as_str());
            assert(arg@ =~= "--tmux-osc-passthrough="@ + codes_text(self.tmux_osc_passthrough@));
        }
        if let Some(path) = &self.debug_dump {
            let mut arg: String = String::new();
            arg.append("--debug-dump=");
            arg.append(path.as_str());
            push_flag(&mut args, true, arg.as_str());
            assert(arg@ =~= "--debug-dump="@ + path@);
        }
        assert(views::texts(args@) =~= self.wrapper_args());
        args
    }

    /// The texts of the positional arguments.
    pub open spec fn positionals(self) -> Seq<Seq<char>> {
        match self.command {
            Some(command) => seq![command@] + views::texts(self.args@),
            None => views::texts(self.args@),
        }
    }

    /// Positional arguments: the command slot merged with the trailing
    /// arguments, for modes where no command name is expected.
    pub fn positional_args(&self) -> (args: Vec<String>)
        ensures
            views::texts(args@) == match self.command {
                Some(command) => seq![command@],
                None => seq![],
            } + views::texts(self.args@),
            views::texts(args@) == self.positionals(),
    {
        let mut args: Vec<String> = Vec::new();
        if let Some(command) = &self.command {
            args.push(command.clone());
        }
        let ghost first = views::texts(args@);
        let mut i: usize = 0;
        assert(first =~= match self.command {
            Some(command) => seq![command@],
            None => seq![],
        });
        assert(views::texts(args@) =~= first + views::texts(self.args@).take(0));
        while i < self.args.len()
            invariant
                i <= self.args@.len(),
                views::texts(args@) == first + views::texts(self.args@).take(i as int),
            decreases self.args@.len() - i,
        {
            let arg: String = self.args[i].clone();
            let ghost before = views::texts(args@);
            args.push(arg);
            assert(views::texts(args@) =~= before.push(views::texts(self.args@)[i as int]));
            assert(views::texts(args@) =~= first + views::texts(self.args@).take(i + 1));
            i += 1;
        }
        assert(views::texts(self.args@).take(i as int) =~= views::texts(self.args@));
        assert(views::texts(args@) =~= self.positionals());
        args
    }

    /// Whether the pointer shapes of the mouse handling are wrapped for tmux:
    /// OSC 22 is one of those to wrap.
    pub fn tmux_pointer(&self) -> (yes: bool)
        ensures
            yes == self.tmux_osc_passthrough@.contains(22u16),
            yes == relays(self.tmux_osc_passthrough@, 22),
    {
        contains_code(&self.tmux_osc_passthrough, 22)
    }
}

/// Whether OSCs with the given number are relayed where `codes` are listed.
pub open spec fn relays(codes: Seq<u16>, number: u16) -> bool {
    codes.contains(number)
}

/// Whether each of `count` filters hands text without escape sequences back
/// without copying it, and copies any other text.
pub open spec fn borrows_plain_text(borrowing: Seq<chain::Borrowing>, count: nat) -> bool {
    &&& borrowing.len() == count
    &&& forall|i: int, data: Seq<u8>|
        0 <= i < count ==> #[trigger] borrowing[i](data) == !data.contains(ESC)
}

proof fn lemma_borrows_more(before: Seq<chain::Borrowing>, after: Seq<chain::Borrowing>)
    requires
        borrows_plain_text(before, before.len()),
        after.len() == before.len() + 1,
        after.drop_last() == before,
        forall|data: Seq<u8>| #[trigger] after.last()(data) == !data.contains(ESC),
    ensures
        borrows_plain_text(after, after.len()),
{
    assert forall|i: int, data: Seq<u8>| 0 <= i < after.len() implies #[trigger] after[i](data)
        == !data.contains(ESC) by {
        if i < before.len() {
            assert(after[i] == before[i]);
            assert(before[i](data) == !data.contains(ESC));
        } else {
            assert(after[i] == after.last());
        }
    }
}

/// An argument, where it is given.
pub open spec fn flag(given: bool, text: Seq<char>) -> Seq<Seq<char>> {
    if given {
        seq![text]
    } else {
        seq![]
    }
}

fn push_flag(args: &mut Vec<String>, given: bool, text: &str)
    ensures
        views::texts(final(args)@) == views::texts(old(args)@) + flag(given, text@),
{
    if given {
        args.push(text.to_owned());
    }
    assert(views::texts(args@) =~= views::texts(old(args)@) + flag(given, text@));
}

/// The digit that writes `value`.
pub open spec fn digit_char(value: nat) -> char {
    if value == 0 {
        '0'
    } else if value == 1 {
        '1'
    } else if value == 2 {
        '2'
    } else if value == 3 {
        '3'
    } else if value == 4 {
        '4'
    } else if value == 5 {
        '5'
    } else if value == 6 {
        '6'
    } else if value == 7 {
        '7'
    } else if value == 8 {
        '8'
    } else {
        '9'
    }
}

/// `value` in decimal.
pub open spec fn decimal_text(value: nat) -> Seq<char>
    decreases value,
{
    if value < 10 {
        seq![digit_char(value)]
    } else {
        decimal_text(value / 10).push(digit_char(value % 10))
    }
}

/// Codes in decimal, with `,` between them.
pub open spec fn codes_text(codes: Seq<u16>) -> Seq<char>
    decreases codes.len(),
{
    if codes.len() == 0 {
        seq![]
    } else if codes.len() == 1 {
        decimal_text(codes[0] as nat)
    } else {
        codes_text(codes.drop_last()) + ","@ + decimal_text(codes.last() as nat)
    }
}

fn digit_text(value: u16) -> (text: &'static str)
    requires
        value < 10,
    ensures
        text@ == seq![digit_char(value as nat)],
{
    proof {
        reveal_strlit("0");
        reveal_strlit("1");
        reveal_strlit("2");
        reveal_strlit("3");
        reveal_strlit("4");
        reveal_strlit("5");
        reveal_strlit("6");
        reveal_strlit("7");
        reveal_strlit("8");
        reveal_strlit("9");
    }
    let text = if value == 0 {
        "0"
    } else if value == 1 {
        "1"
    } else if value == 2 {
        "2"
    } else if value == 3 {
        "3"
    } else if value == 4 {
        "4"
    } else if value == 5 {
        "5"
    } else if value == 6 {
        "6"
    } else if value == 7 {
        "7"
    } else if value == 8 {
        "8"
    } else {
        "9"
    };
    assert(text@ =~= seq![digit_char(value as nat)]);
    text
}

/// Appends `value` in decimal.
fn push_decimal(text: &mut String, value: u16)
    ensures
        final(text)@ == old(text)@ + decimal_text(value as nat),
    decreases value,
{
    if value >= 10 {
        push_decimal(text, value / 10);
    }
    text.append(digit_text(value % 10));
    assert(text@ =~= old(text)@ + decimal_text(value as nat));
}

fn push_codes(text: &mut String, codes: &[u16])
    ensures
        final(text)@ == old(text)@ + codes_text(codes@),
{
    let mut i: usize = 0;
    assert(text@ =~= old(text)@ + codes_text(codes@.take(0)));
    while i < codes.len()
        invariant
            i <= codes@.len(),
            text@ == old(text)@ + codes_text(codes@.take(i as int)),
        decreases codes@.len() - i,
    {
        if i > 0 {
            text.append(",");
        }
        push_decimal(text, codes[i]);
        proof {
            let taken = codes@.take(i + 1);
            assert(taken.drop_last() =~= codes@.take(i as int));
            assert(text@ =~= old(text)@ + codes_text(taken));
        }
        i += 1;
    }
    assert(codes@.take(i as int) =~= codes@);
}

/// Whether a command is run without a PTY.
pub open spec fn bypasses_pty(wrap: bool, stdin_tty: bool, stdout_tty: bool) -> bool {
    wrap && (!stdin_tty || !stdout_tty)
}

/// Whether a wrapper runs its command without a PTY: standard input or output
/// is not a terminal.
pub fn should_bypass_pty(wrap: bool, stdin_tty: bool, stdout_tty: bool) -> (yes: bool)
    ensures
        yes == (wrap && !(stdin_tty && stdout_tty)),
        yes == bypasses_pty(wrap, stdin_tty, stdout_tty),
{
    wrap && (!stdin_tty || !stdout_tty)
}

/// The file for the unfiltered output, of one that was given and one from the
/// environment.
pub open spec fn dump_path<P>(cli_path: Option<P>, env_path: Option<P>) -> Option<P> {
    match cli_path {
        Some(path) => Some(path),
        None => env_path,
    }
}

/// The file for the unfiltered output: the one that was given on the command
/// line, or else the one from the environment.
pub fn choose_debug_dump_path<P>(cli_path: Option<P>, env_path: Option<P>) -> (path: Option<P>)
    ensures
        path == if cli_path is Some {
            cli_path
        } else {
            env_path
        },
        path == dump_path(cli_path, env_path),
{
    match cli_path {
        Some(path) => Some(path),
        None => env_path,
    }
}

/// The size of a terminal, in characters and in pixels.
#[derive(Debug, Clone, Copy, PartialEq, Eq, Structural)]
pub struct TerminalSize {
    pub rows: u16,
    pub cols: u16,
    pub pixel_width: u16,
    pub pixel_height: u16,
}

/// The size of the PTY for a terminal.
pub open spec fn pty_size(reported: Option<TerminalSize>) -> TerminalSize {
    match reported {
        Some(size) => if size.rows == 0 || size.cols == 0 {
            TerminalSize { rows: 24, cols: 80, pixel_width: 0, pixel_height: 0 }
        } else {
            size
        },
        None => TerminalSize { rows: 24, cols: 80, pixel_width: 0, pixel_height: 0 },
    }
}

/// The size of the PTY: that of the terminal, where it has one, or else 24
/// rows of 80 columns.
pub fn choose_pty_size(reported: Option<TerminalSize>) -> (size: TerminalSize)
    ensures
        size == if reported is Some && reported->0.rows > 0 && reported->0.cols > 0 {
            reported->0
        } else {
            TerminalSize { rows: 24, cols: 80, pixel_width: 0, pixel_height: 0 }
        },
        size.rows > 0,
        size.cols > 0,
        size == pty_size(reported),
{
    match reported {
        Some(size) if size.rows > 0 && size.cols > 0 => size,
        _ => TerminalSize { rows: 24, cols: 80, pixel_width: 0, pixel_height: 0 },
    }
}

/// Whether `program` is a path that is relative to the current directory.
pub open spec fn is_relative(program: Seq<u8>) -> bool {
    program.contains(SLASH) && program[0] != SLASH
}

/// Whether a program is named by a path that is relative to the current
/// directory, and not by a name to be found in `PATH`.
pub fn is_relative_path(program: &[u8]) -> (yes: bool)
    ensures
        yes == (program@.contains(SLASH) && program@[0] != SLASH),
        yes == is_relative(program@),
{
    match memchr::memchr(SLASH, program) {
        Some(at) => {
            assert(program@.contains(program@[at as int]));
            program[0] != SLASH
        },
        None => false,
    }
}

/// With no behavior options the output passes as it is, and nothing is held
/// back of it.
pub proof fn no_options_are_transparent(cli: Cli, calls: Seq<model::Call>)
    requires
        !cli.strip_ink_fake_cursor,
        !cli.strip_osc_titles,
        !cli.strip_cursor_shape,
        cli.tmux_osc_passthrough@.len() == 0,
        calls.len() > 0,
    ensures
        chain::chain_reply(cli.stages(), calls) == match calls.last() {
            model::Call::Chunk(data) => data,
            model::Call::Finish => Seq::<u8>::empty(),
        },
{
    assert(cli.stages() =~= seq![]);
}

/// Whatever filters are chosen, what they make of the output does not depend
/// on where it is cut into chunks.
pub proof fn filtering_ignores_cuts(cli: Cli)
    ensures
        model::ignores_cuts(chain::chain_behaviour(cli.stages())),
{
    let stages = cli.stages();
    model::steps_ignore_cuts(ink_fake_cursor::fake_cursor_step(), seq![]);
    model::steps_ignore_cuts(dropping::drop_step(Dropped::CursorHide), seq![]);
    chain::chains_ignore_cuts(ink_fake_cursor::ink_stages(seq![], seq![]));
    model::steps_ignore_cuts(osc::osc_step(DropTitles), seq![]);
    model::steps_ignore_cuts(cursor_shape::cursor_shape_step(), seq![]);
    model::steps_ignore_cuts(
        osc::osc_step(WrapListed { codes: cli.tmux_osc_passthrough }),
        seq![],
    );
    chain::chains_ignore_cuts(stages);
}

/// Text without escape sequences passes through all chosen filters unchanged,
/// and without being copied.
pub proof fn plain_text_is_not_copied(
    cli: Cli,
    borrowing: Seq<chain::Borrowing>,
    data: Seq<u8>,
)
    requires
        borrows_plain_text(borrowing, cli.stages().len()),
        !data.contains(ESC),
    ensures
        chain::chain_borrows(cli.stages(), borrowing, data),
        chain::chain_reply(cli.stages(), seq![model::Call::Chunk(data)]) == data,
{
    let stages = cli.stages();
    let call = seq![model::Call::Chunk(data)];
    ink_laws::plain_text_passes(data);
    osc::plain_text_passes(DropTitles, data);
    dropping::plain_text_passes(Dropped::CursorShape, data);
    osc::plain_text_passes(WrapListed { codes: cli.tmux_osc_passthrough }, data);
    assert forall|i: int| 0 <= i < stages.len() implies (#[trigger] stages[i])(call) == data by {}
    lemma_passes_unchanged(stages, borrowing, data);
    let pass = chain::Pass { data, last: false };
    assert(chain::entries(call) =~= seq![pass]);
    lemma_same_pass(stages, pass);
}

proof fn lemma_passes_unchanged(
    stages: Seq<Behaviour>,
    borrowing: Seq<chain::Borrowing>,
    data: Seq<u8>,
)
    requires
        borrows_plain_text(borrowing, stages.len()),
        !data.contains(ESC),
        forall|i: int|
            0 <= i < stages.len() ==> (#[trigger] stages[i])(seq![model::Call::Chunk(data)])
                == data,
    ensures
        chain::chain_borrows(stages, borrowing, data),
    decreases stages.len(),
{
    if stages.len() > 0 {
        let rest = stages.drop_first();
        let others = borrowing.drop_first();
        assert(borrowing[0](data));
        assert(stages[0](seq![model::Call::Chunk(data)]) == data);
        assert forall|i: int| 0 <= i < rest.len() implies (#[trigger] rest[i])(
            seq![model::Call::Chunk(data)],
        ) == data by {
            assert(rest[i] == stages[i + 1]);
        }
        assert forall|i: int, other: Seq<u8>| 0 <= i < others.len() implies #[trigger] others[i](
            other,
        ) == !other.contains(ESC) by {
            assert(borrowing[i + 1](other) == !other.contains(ESC));
        }
        lemma_passes_unchanged(rest, others, data);
    }
}

proof fn lemma_same_pass(stages: Seq<Behaviour>, pass: chain::Pass)
    requires
        !pass.last,
        forall|i: int|
            0 <= i < stages.len() ==> (#[trigger] stages[i])(seq![model::Call::Chunk(pass.data)])
                == pass.data,
    ensures
        chain::through_all(stages, seq![pass]) == seq![pass],
    decreases stages.len(),
{
    if stages.len() > 0 {
        let rest = stages.drop_first();
        let call = seq![model::Call::Chunk(pass.data)];
        assert(stages[0](call) == pass.data);
        assert(seq![pass].take(1) =~= seq![pass]);
        assert(seq![pass].drop_last() =~= seq![]);
        assert(Seq::<model::Call>::empty() + call =~= call);
        assert(chain::through(stages[0], seq![pass]) =~= seq![pass]);
        assert forall|i: int| 0 <= i < rest.len() implies (#[trigger] rest[i])(call)
            == pass.data by {
            assert(rest[i] == stages[i + 1]);
        }
        lemma_same_pass(rest, pass);
    }
}

/// The number that was written is the number that is read.
pub proof fn written_codes_read_back(value: nat)
    ensures
        ({
            let digits = decimal_text(value).map_values(|c: char| c as u8);
            bytes::all_digits(digits) && bytes::decimal(digits) == value
        }),
    decreases value,
{
    let digits = decimal_text(value).map_values(|c: char| c as u8);
    if value < 10 {
        assert(digits.drop_last() =~= seq![]);
        assert(bytes::decimal(digits.drop_last()) == 0);
    } else {
        let before = decimal_text(value / 10).map_values(|c: char| c as u8);
        written_codes_read_back(value / 10);
        assert(digits.drop_last() =~= before);
        assert(digits.last() == digit_char(value % 10) as u8);
        assert forall|i: int| 0 <= i < digits.len() implies bytes::is_digit(
            #[trigger] digits[i],
        ) by {
            if i < before.len() {
                assert(digits[i] == before[i]);
            }
        }
    }
}

} // verus!
