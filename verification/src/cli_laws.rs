//! What the options of a run do to its output.
use vstd::prelude::*;

use crate::bytes;
use crate::cli::{self, Cli, TerminalSize};
use crate::filters::dropping::Dropped;
use crate::filters::model::Behaviour;
use crate::filters::pieces::{self, Piece};
use crate::filters::tmux_osc_passthrough;
use crate::filters::{
    chain, cursor_shape, dropping, ink_fake_cursor, ink_laws, model, osc, relay_laws, DropTitles,
    WrapListed,
};

verus! {

/// What the chosen filters make of a whole stream, handed over in chunks.
pub open spec fn shown(cli: Cli, chunks: Seq<Seq<u8>>) -> Seq<u8> {
    model::outputs(chain::chain_behaviour(cli.stages()), model::whole_stream(chunks))
}

/// What one filter makes of a whole stream, where it is chosen.
pub open spec fn where_chosen(chosen: bool, filter: Behaviour, data: Seq<u8>) -> Seq<u8> {
    if chosen {
        model::outputs(filter, model::whole_stream(seq![data]))
    } else {
        data
    }
}

/// What is left of a stream without fake cursors, where that is asked for.
pub open spec fn after_ink(cli: Cli, data: Seq<u8>) -> Seq<u8> {
    where_chosen(
        cli.strip_ink_fake_cursor,
        chain::chain_behaviour(ink_fake_cursor::ink_stages(seq![], seq![])),
        data,
    )
}

/// Then without titles, where that is asked for.
pub open spec fn after_titles(cli: Cli, data: Seq<u8>) -> Seq<u8> {
    where_chosen(
        cli.strip_osc_titles,
        model::step_behaviour(osc::osc_step(DropTitles), seq![]),
        after_ink(cli, data),
    )
}

/// Then without cursor shapes, where that is asked for.
pub open spec fn after_shapes(cli: Cli, data: Seq<u8>) -> Seq<u8> {
    where_chosen(
        cli.strip_cursor_shape,
        model::step_behaviour(cursor_shape::cursor_shape_step(), seq![]),
        after_titles(cli, data),
    )
}

/// Then with the listed OSCs relayed.
pub open spec fn after_relays(cli: Cli, data: Seq<u8>) -> Seq<u8> {
    where_chosen(
        cli.tmux_osc_passthrough@.len() > 0,
        model::step_behaviour(
            osc::osc_step(WrapListed { codes: cli.tmux_osc_passthrough }),
            seq![],
        ),
        after_shapes(cli, data),
    )
}

/// One filter more at the end, where it is chosen.
proof fn lemma_one_more(
    stages: Seq<Behaviour>,
    chosen: bool,
    filter: Behaviour,
    chunks: Seq<Seq<u8>>,
    left: Seq<u8>,
)
    requires
        model::ignores_cuts(filter),
        model::outputs(chain::chain_behaviour(stages), model::whole_stream(chunks)) == left,
    ensures
        model::outputs(
            chain::chain_behaviour(
                if chosen {
                    stages.push(filter)
                } else {
                    stages
                },
            ),
            model::whole_stream(chunks),
        ) == where_chosen(chosen, filter, left),
{
    if chosen {
        chain::each_filter_takes_what_the_others_leave(stages, filter, chunks);
    }
}

/// Each option works by itself and together with any others: what the chosen
/// filters make of a stream is what each of them in turn makes of what the one
/// before it leaves, and an option that is not given changes nothing.
pub proof fn every_option_works(cli: Cli, chunks: Seq<Seq<u8>>)
    ensures
        shown(cli, chunks) == after_relays(cli, model::concat(chunks)),
{
    let data = model::concat(chunks);
    let none = Seq::<Behaviour>::empty();
    let ink = chain::chain_behaviour(ink_fake_cursor::ink_stages(seq![], seq![]));
    let titles = model::step_behaviour(osc::osc_step(DropTitles), seq![]);
    let shapes = model::step_behaviour(cursor_shape::cursor_shape_step(), seq![]);
    let relays = model::step_behaviour(
        osc::osc_step(WrapListed { codes: cli.tmux_osc_passthrough }),
        seq![],
    );
    model::steps_ignore_cuts(ink_fake_cursor::fake_cursor_step(), seq![]);
    model::steps_ignore_cuts(dropping::drop_step(Dropped::CursorHide), seq![]);
    chain::chains_ignore_cuts(ink_fake_cursor::ink_stages(seq![], seq![]));
    model::steps_ignore_cuts(osc::osc_step(DropTitles), seq![]);
    model::steps_ignore_cuts(cursor_shape::cursor_shape_step(), seq![]);
    model::steps_ignore_cuts(
        osc::osc_step(WrapListed { codes: cli.tmux_osc_passthrough }),
        seq![],
    );
    chain::each_filter_takes_what_the_others_leave(none, ink, chunks);
    let first = if cli.strip_ink_fake_cursor {
        none.push(ink)
    } else {
        none
    };
    let second = if cli.strip_osc_titles {
        first.push(titles)
    } else {
        first
    };
    let third = if cli.strip_cursor_shape {
        second.push(shapes)
    } else {
        second
    };
    lemma_one_more(none, cli.strip_ink_fake_cursor, ink, chunks, data);
    lemma_one_more(first, cli.strip_osc_titles, titles, chunks, after_ink(cli, data));
    lemma_one_more(second, cli.strip_cursor_shape, shapes, chunks, after_titles(cli, data));
    lemma_one_more(
        third,
        cli.tmux_osc_passthrough@.len() > 0,
        relays,
        chunks,
        after_shapes(cli, data),
    );
}

/// What the options make of one piece of a stream: text in inverse that is a
/// fake cursor is stripped, sequences that hide the cursor, set a title or set
/// the cursor shape are dropped, and listed OSCs are relayed, each where its
/// option is given and only then.
pub open spec fn shown_piece(cli: Cli, piece: Piece) -> Seq<u8> {
    if cli.strip_ink_fake_cursor && pieces::hides_cursor(piece) {
        seq![]
    } else if cli.strip_osc_titles && pieces::sets_title(piece) {
        seq![]
    } else if cli.strip_cursor_shape && pieces::sets_cursor_shape(piece) {
        seq![]
    } else if pieces::is_listed(cli.tmux_osc_passthrough@, piece) {
        tmux_osc_passthrough::tmux_wrapped(pieces::written(piece))
    } else if cli.strip_ink_fake_cursor {
        pieces::without_fake_cursor(piece)
    } else {
        pieces::written(piece)
    }
}

/// The bytes of the pieces of a stream.
pub open spec fn stream_of(stream: Seq<Piece>) -> Seq<u8> {
    model::concat(stream.map_values(|piece: Piece| pieces::written(piece)))
}

/// Pieces that each leave nothing held back.
proof fn lemma_pieces(step: model::ByteStep, before: Seq<Seq<u8>>, after: Seq<Seq<u8>>)
    requires
        before.len() == after.len(),
        forall|i: int|
            0 <= i < before.len() ==> model::feed(step, seq![], #[trigger] before[i]) == (
                Seq::<u8>::empty(),
                after[i],
            ),
    ensures
        model::outputs(
            model::step_behaviour(step, seq![]),
            model::whole_stream(seq![model::concat(before)]),
        ) == model::concat(after),
        model::feed(step, seq![], model::concat(before)) == (
            Seq::<u8>::empty(),
            model::concat(after),
        ),
{
    let none = Seq::<u8>::empty();
    let data = model::concat(before);
    assert(model::feed(step, seq![], none) == (none, none));
    model::lemma_feed_units(step, before, after, none);
    assert(data + none =~= data);
    model::steps_ignore_cuts(step, seq![]);
    lemma_one_chunk(data);
    assert(model::concat(after) + none =~= model::concat(after));
}

proof fn lemma_one_chunk(data: Seq<u8>)
    ensures
        model::concat(seq![data]) == data,
{
    assert(seq![data].drop_last() =~= seq![]);
    assert(model::concat(seq![data].drop_last()) =~= seq![]);
    assert(model::concat(seq![data]) =~= data);
}

proof fn lemma_ink_pieces(before: Seq<Seq<u8>>, between: Seq<Seq<u8>>, after: Seq<Seq<u8>>)
    requires
        before.len() == between.len() == after.len(),
        forall|i: int|
            0 <= i < before.len() ==> model::feed(
                ink_fake_cursor::fake_cursor_step(),
                seq![],
                #[trigger] before[i],
            ) == (Seq::<u8>::empty(), between[i]),
        forall|i: int|
            0 <= i < between.len() ==> model::feed(
                dropping::drop_step(Dropped::CursorHide),
                seq![],
                #[trigger] between[i],
            ) == (Seq::<u8>::empty(), after[i]),
    ensures
        model::outputs(
            chain::chain_behaviour(ink_fake_cursor::ink_stages(seq![], seq![])),
            model::whole_stream(seq![model::concat(before)]),
        ) == model::concat(after),
{
    let first = ink_fake_cursor::fake_cursor_step();
    let second = dropping::drop_step(Dropped::CursorHide);
    let data = model::concat(before);
    let none = Seq::<u8>::empty();
    lemma_pieces(first, before, between);
    lemma_pieces(second, between, after);
    lemma_one_chunk(data);
    chain::pairs_filter_whole_streams(first, second, seq![data]);
    assert(model::concat(between) + none =~= model::concat(between));
    assert(model::concat(after) + none =~= model::concat(after));
}

/// Every option does what it is for to every piece of a stream, whatever the
/// other options and the other pieces, and however the stream is cut into
/// chunks; nothing else changes.
pub proof fn options_act_on_every_piece(cli: Cli, stream: Seq<Piece>, chunks: Seq<Seq<u8>>)
    requires
        forall|i: int| 0 <= i < stream.len() ==> pieces::is_piece(#[trigger] stream[i]),
        model::concat(chunks) == stream_of(stream),
    ensures
        shown(cli, chunks) == model::concat(
            stream.map_values(|piece: Piece| shown_piece(cli, piece)),
        ),
{
    let rule = WrapListed { codes: cli.tmux_osc_passthrough };
    let hides = |piece: Piece| cli.strip_ink_fake_cursor && pieces::hides_cursor(piece);
    let names = |piece: Piece| cli.strip_osc_titles && pieces::sets_title(piece);
    let shapes = |piece: Piece| cli.strip_cursor_shape && pieces::sets_cursor_shape(piece);
    let none = Seq::<u8>::empty();
    let text = |piece: Piece|
        if cli.strip_ink_fake_cursor {
            pieces::without_fake_cursor(piece)
        } else {
            pieces::written(piece)
        };
    let s0 = stream.map_values(|piece: Piece| pieces::written(piece));
    let between = stream.map_values(|piece: Piece| text(piece));
    let s1 = stream.map_values(
        |piece: Piece|
            if hides(piece) {
                none
            } else {
                text(piece)
            },
    );
    let s2 = stream.map_values(
        |piece: Piece|
            if hides(piece) || names(piece) {
                none
            } else {
                text(piece)
            },
    );
    let s3 = stream.map_values(
        |piece: Piece|
            if hides(piece) || names(piece) || shapes(piece) {
                none
            } else {
                text(piece)
            },
    );
    let s4 = stream.map_values(|piece: Piece| shown_piece(cli, piece));
    let fake = ink_fake_cursor::fake_cursor_step();
    let hide = dropping::drop_step(Dropped::CursorHide);
    let titles = osc::osc_step(DropTitles);
    let shape = cursor_shape::cursor_shape_step();
    let relay = osc::osc_step(rule);
    assert(model::feed(hide, seq![], none) == (none, none));
    assert(model::feed(titles, seq![], none) == (none, none));
    assert(model::feed(shape, seq![], none) == (none, none));
    assert(model::feed(relay, seq![], none) == (none, none));
    assert forall|i: int| 0 <= i < stream.len() implies {
        &&& model::feed(fake, seq![], s0[i]) == (none, pieces::without_fake_cursor(stream[i]))
        &&& model::feed(hide, seq![], between[i]) == (
            none,
            if pieces::hides_cursor(stream[i]) {
                none
            } else {
                between[i]
            },
        )
        &&& cli.strip_osc_titles ==> model::feed(titles, seq![], #[trigger] s1[i]) == (none, s2[i])
        &&& cli.strip_cursor_shape ==> model::feed(shape, seq![], s2[i]) == (none, s3[i])
        &&& model::feed(relay, seq![], s3[i]) == (none, s4[i])
    } by {
        let piece = stream[i];
        assert(pieces::is_piece(piece));
        pieces::fake_cursors_are_stripped(piece);
        pieces::cursor_sequences_are_dropped(piece, text(piece));
        pieces::titles_are_dropped(piece, text(piece));
        pieces::listed_pieces_are_relayed(rule, piece, text(piece));
        if pieces::is_listed(rule.codes@, piece) {
            assert(text(piece) == pieces::written(piece));
        }
    }
    every_option_works(cli, chunks);
    let data = model::concat(chunks);
    if cli.strip_ink_fake_cursor {
        assert forall|i: int| 0 <= i < s0.len() implies model::feed(
            fake,
            seq![],
            #[trigger] s0[i],
        ) == (none, between[i]) by {
            assert(s1[i] == s1[i]);
        }
        assert forall|i: int| 0 <= i < between.len() implies model::feed(
            hide,
            seq![],
            #[trigger] between[i],
        ) == (none, s1[i]) by {
            assert(s1[i] == s1[i]);
        }
        lemma_ink_pieces(s0, between, s1);
    } else {
        assert(s0 =~= s1);
    }
    assert(after_ink(cli, data) == model::concat(s1));
    if cli.strip_osc_titles {
        lemma_pieces(titles, s1, s2);
    } else {
        assert(s1 =~= s2);
    }
    assert(after_titles(cli, data) == model::concat(s2));
    if cli.strip_cursor_shape {
        assert forall|i: int| 0 <= i < s2.len() implies model::feed(
            shape,
            seq![],
            #[trigger] s2[i],
        ) == (none, s3[i]) by {
            assert(s1[i] == s1[i]);
        }
        lemma_pieces(shape, s2, s3);
    } else {
        assert(s2 =~= s3);
    }
    assert(after_shapes(cli, data) == model::concat(s3));
    if cli.tmux_osc_passthrough@.len() > 0 {
        assert forall|i: int| 0 <= i < s3.len() implies model::feed(
            relay,
            seq![],
            #[trigger] s3[i],
        ) == (none, s4[i]) by {
            assert(s1[i] == s1[i]);
        }
        lemma_pieces(relay, s3, s4);
    } else {
        assert(s3 =~= s4);
    }
}

/// What one filter by steps makes of a whole stream.
proof fn lemma_step_result(step: model::ByteStep, data: Seq<u8>)
    ensures
        where_chosen(true, model::step_behaviour(step, seq![]), data) == model::feed(
            step,
            seq![],
            data,
        ).1 + model::feed(step, seq![], data).0,
{
    model::steps_ignore_cuts(step, seq![]);
    lemma_one_chunk(data);
}

/// With cursor shapes stripped, no sequence that sets one is left in what is
/// shown of any stream, whatever the other options.
pub proof fn no_cursor_shape_is_left(cli: Cli, chunks: Seq<Seq<u8>>)
    requires
        cli.strip_cursor_shape,
    ensures
        dropping::is_free_of(Dropped::CursorShape, shown(cli, chunks)),
{
    let data = model::concat(chunks);
    let rule = WrapListed { codes: cli.tmux_osc_passthrough };
    every_option_works(cli, chunks);
    lemma_step_result(cursor_shape::cursor_shape_step(), after_titles(cli, data));
    cursor_shape::only_cursor_shapes_are_dropped(after_titles(cli, data));
    if cli.tmux_osc_passthrough@.len() > 0 {
        lemma_step_result(osc::osc_step(rule), after_shapes(cli, data));
        relay_laws::relaying_makes_no_sequence(
            Dropped::CursorShape,
            rule,
            after_shapes(cli, data),
        );
    }
}

/// With fake cursors stripped, no sequence that hides the cursor is left in
/// what the fake cursor filter makes of any stream; and so none is left in what
/// is shown, where no other option takes bytes out behind that filter.
pub proof fn no_cursor_hiding_is_left(cli: Cli, chunks: Seq<Seq<u8>>)
    requires
        cli.strip_ink_fake_cursor,
    ensures
        dropping::is_free_of(Dropped::CursorHide, after_ink(cli, model::concat(chunks))),
        !cli.strip_osc_titles && !cli.strip_cursor_shape ==> dropping::is_free_of(
            Dropped::CursorHide,
            shown(cli, chunks),
        ),
{
    let data = model::concat(chunks);
    let rule = WrapListed { codes: cli.tmux_osc_passthrough };
    every_option_works(cli, chunks);
    ink_laws::no_cursor_hiding_is_left(seq![data]);
    if !cli.strip_osc_titles && !cli.strip_cursor_shape && cli.tmux_osc_passthrough@.len() > 0 {
        lemma_step_result(osc::osc_step(rule), after_shapes(cli, data));
        relay_laws::relaying_makes_no_sequence(
            Dropped::CursorHide,
            rule,
            after_shapes(cli, data),
        );
    }
}

/// With titles stripped, none is left in what the title filter makes of any
/// stream; and so none is left in what is shown, whatever the other options,
/// where the cursor shape filter behind it finds nothing to take out.
pub proof fn no_title_is_left(cli: Cli, chunks: Seq<Seq<u8>>)
    requires
        cli.strip_osc_titles,
    ensures
        relay_laws::is_free_of_titles(after_titles(cli, model::concat(chunks))),
        !cli.strip_cursor_shape || dropping::is_free_of(
            Dropped::CursorShape,
            after_titles(cli, model::concat(chunks)),
        ) ==> relay_laws::is_free_of_titles(shown(cli, chunks)),
{
    let data = model::concat(chunks);
    let step = osc::osc_step(DropTitles);
    let none = Seq::<u8>::empty();
    let entered = after_ink(cli, data);
    let left = after_titles(cli, data);
    let (held, out) = model::feed(step, seq![], entered);
    every_option_works(cli, chunks);
    lemma_step_result(step, entered);
    osc::filtering_twice_is_filtering_once(DropTitles, entered);
    osc::lemma_tail_is_held(DropTitles, held);
    model::lemma_feed_concat(step, none, out, held);
    assert(out + none =~= out);
    if cli.strip_cursor_shape && dropping::is_free_of(Dropped::CursorShape, left) {
        lemma_step_result(cursor_shape::cursor_shape_step(), left);
        cursor_shape::only_cursor_shapes_are_dropped(left);
        dropping::dropping_twice_is_dropping_once(Dropped::CursorShape, left);
    }
    if cli.tmux_osc_passthrough@.len() > 0 && after_shapes(cli, data) == left {
        let rule = WrapListed { codes: cli.tmux_osc_passthrough };
        lemma_step_result(osc::osc_step(rule), left);
        relay_laws::relaying_makes_no_title(rule, left);
    }
}

/// The fields of a text, which a `,` separates.
pub open spec fn fields(text: Seq<char>) -> Seq<Seq<char>>
    decreases text.len(),
{
    if text.len() == 0 {
        seq![seq![]]
    } else {
        let before = fields(text.drop_last());
        if text.last() == ',' {
            before.push(seq![])
        } else {
            before.drop_last().push(before.last().push(text.last()))
        }
    }
}

/// The numbers that a text lists.
pub open spec fn numbers(text: Seq<char>) -> Seq<nat> {
    fields(text).map_values(
        |field: Seq<char>| bytes::decimal(field.map_values(|c: char| c as u8)),
    )
}

proof fn lemma_fields_behind(text: Seq<char>, field: Seq<char>)
    requires
        forall|i: int| 0 <= i < field.len() ==> field[i] != ',',
    ensures
        fields(text.push(',') + field) == fields(text).push(field),
        fields(field) == seq![field],
        fields(text).len() > 0,
    decreases text.len() + field.len(),
{
    let all = text.push(',') + field;
    if text.len() > 0 {
        lemma_fields_behind(text.drop_last(), seq![]);
    }
    if field.len() == 0 {
        assert(field =~= seq![]);
        assert(all =~= text.push(','));
        assert(all.drop_last() =~= text);
    } else {
        let shorter = field.drop_last();
        lemma_fields_behind(text, shorter);
        assert(all.drop_last() =~= text.push(',') + shorter);
        assert(field =~= shorter.push(field.last()));
        assert(fields(all) =~= fields(text).push(field));
        assert(fields(field) =~= seq![field]);
    }
}

proof fn lemma_no_comma(value: nat)
    ensures
        forall|i: int|
            0 <= i < cli::decimal_text(value).len() ==> cli::decimal_text(value)[i] != ',',
    decreases value,
{
    let text = cli::decimal_text(value);
    if value >= 10 {
        let before = cli::decimal_text(value / 10);
        lemma_no_comma(value / 10);
        assert forall|i: int| 0 <= i < text.len() implies text[i] != ',' by {
            if i < before.len() {
                assert(text[i] == before[i]);
            }
        }
    } else {
        assert(text =~= seq![cli::digit_char(value)]);
    }
}

/// A list of codes is read back as it was written: all of them, in order.
pub proof fn listed_codes_read_back(codes: Seq<u16>)
    requires
        codes.len() > 0,
    ensures
        numbers(cli::codes_text(codes)) == codes.map_values(|code: u16| code as nat),
    decreases codes.len(),
{
    let text = cli::codes_text(codes);
    let last = cli::decimal_text(codes.last() as nat);
    let expected = codes.map_values(|code: u16| code as nat);
    lemma_no_comma(codes.last() as nat);
    cli::written_codes_read_back(codes.last() as nat);
    if codes.len() == 1 {
        lemma_fields_behind(seq![], last);
        assert(fields(text) =~= seq![last]);
        assert(numbers(text) =~= expected);
    } else {
        let shorter = codes.drop_last();
        let before = cli::codes_text(shorter);
        listed_codes_read_back(shorter);
        reveal_strlit(",");
        assert(text =~= before.push(',') + last);
        lemma_fields_behind(before, last);
        assert(numbers(text) =~= numbers(before).push(codes.last() as nat));
        assert(expected =~= shorter.map_values(|code: u16| code as nat).push(
            codes.last() as nat,
        ));
    }
}

/// Every behavior option that is given is written for a wrapper, once, and none
/// that is not given; the codes and the path are written with theirs.
pub proof fn wrappers_get_the_options(cli: Cli)
    ensures
        ({
            let args = cli.wrapper_args();
            &&& args.contains("--strip-cursor-shape"@) == cli.strip_cursor_shape
            &&& args.contains("--strip-ink-fake-cursor"@) == cli.strip_ink_fake_cursor
            &&& args.contains("--strip-osc-titles"@) == cli.strip_osc_titles
            &&& args.contains("--codex-mouse-ui"@) == cli.codex_mouse_ui
            &&& args.contains(
                "--tmux-osc-passthrough="@ + cli::codes_text(cli.tmux_osc_passthrough@),
            ) == (cli.tmux_osc_passthrough@.len() > 0)
            &&& cli.debug_dump is Some ==> args.contains("--debug-dump="@ + cli.debug_dump->0@)
            &&& args.len() == count(cli.strip_cursor_shape) + count(cli.strip_ink_fake_cursor)
                + count(cli.strip_osc_titles) + count(cli.codex_mouse_ui) + count(
                cli.tmux_osc_passthrough@.len() > 0,
            ) + count(cli.debug_dump is Some)
        }),
{
    reveal_strlit("--strip-cursor-shape");
    reveal_strlit("--strip-ink-fake-cursor");
    reveal_strlit("--strip-osc-titles");
    reveal_strlit("--codex-mouse-ui");
    reveal_strlit("--tmux-osc-passthrough=");
    reveal_strlit("--debug-dump=");
    let args = cli.wrapper_args();
    let shape = "--strip-cursor-shape"@;
    let ink = "--strip-ink-fake-cursor"@;
    let titles = "--strip-osc-titles"@;
    let mouse = "--codex-mouse-ui"@;
    let codes = "--tmux-osc-passthrough="@ + cli::codes_text(cli.tmux_osc_passthrough@);
    let path = match cli.debug_dump {
        Some(path) => path@,
        None => Seq::<char>::empty(),
    };
    let dump = "--debug-dump="@ + path;
    assert(shape[2] == 's' && shape[8] == 'c');
    assert(ink[2] == 's' && ink[8] == 'i');
    assert(titles[2] == 's' && titles[8] == 'o');
    assert(mouse[2] == 'c');
    assert(codes[2] == 't');
    assert(dump[2] == 'd');
    let a = cli::flag(cli.strip_cursor_shape, shape);
    let b = cli::flag(cli.strip_ink_fake_cursor, ink);
    let c = cli::flag(cli.strip_osc_titles, titles);
    let d = cli::flag(cli.codex_mouse_ui, mouse);
    let e = cli::flag(cli.tmux_osc_passthrough@.len() > 0, codes);
    let f = cli::flag(cli.debug_dump is Some, dump);
    assert(args =~= a + b + c + d + e + f);
    lemma_contains(a, b, c, d, e, f, shape);
    lemma_contains(a, b, c, d, e, f, ink);
    lemma_contains(a, b, c, d, e, f, titles);
    lemma_contains(a, b, c, d, e, f, mouse);
    lemma_contains(a, b, c, d, e, f, codes);
    lemma_contains(a, b, c, d, e, f, dump);
    lemma_flag(cli.strip_cursor_shape, shape);
    lemma_flag(cli.strip_ink_fake_cursor, ink);
    lemma_flag(cli.strip_osc_titles, titles);
    lemma_flag(cli.codex_mouse_ui, mouse);
    lemma_flag(cli.tmux_osc_passthrough@.len() > 0, codes);
    lemma_flag(cli.debug_dump is Some, dump);
}

/// One where something is so, and none where it is not.
pub open spec fn count(yes: bool) -> nat {
    if yes {
        1
    } else {
        0
    }
}

proof fn lemma_flag(given: bool, text: Seq<char>)
    ensures
        forall|other: Seq<char>| #[trigger]
            cli::flag(given, text).contains(other) == (given && other == text),
{
    assert forall|other: Seq<char>| #[trigger] cli::flag(given, text).contains(other) == (given
        && other == text) by {
        if given {
            assert(cli::flag(given, text)[0] == text);
        }
    }
}

proof fn lemma_contains(
    a: Seq<Seq<char>>,
    b: Seq<Seq<char>>,
    c: Seq<Seq<char>>,
    d: Seq<Seq<char>>,
    e: Seq<Seq<char>>,
    f: Seq<Seq<char>>,
    text: Seq<char>,
)
    ensures
        (a + b + c + d + e + f).contains(text) == (a.contains(text) || b.contains(text)
            || c.contains(text) || d.contains(text) || e.contains(text) || f.contains(text)),
{
    lemma_contains_both(a, b, text);
    lemma_contains_both(a + b, c, text);
    lemma_contains_both(a + b + c, d, text);
    lemma_contains_both(a + b + c + d, e, text);
    lemma_contains_both(a + b + c + d + e, f, text);
}

proof fn lemma_contains_both(a: Seq<Seq<char>>, b: Seq<Seq<char>>, text: Seq<char>)
    ensures
        (a + b).contains(text) == (a.contains(text) || b.contains(text)),
{
    let all = a + b;
    if all.contains(text) {
        let i = choose|i: int| 0 <= i < all.len() && all[i] == text;
        if i < a.len() {
            assert(a[i] == text);
        } else {
            assert(b[i - a.len()] == text);
        }
    }
    if a.contains(text) {
        let i = choose|i: int| 0 <= i < a.len() && a[i] == text;
        assert(all[i] == text);
    }
    if b.contains(text) {
        let i = choose|i: int| 0 <= i < b.len() && b[i] == text;
        assert(all[a.len() + i] == text);
    }
}

/// A command that is not wrapped always gets a PTY. A wrapped one gets one
/// exactly where both its input and its output are a terminal.
pub proof fn terminals_get_a_pty(stdin_tty: bool, stdout_tty: bool)
    ensures
        !cli::bypasses_pty(false, stdin_tty, stdout_tty),
        !cli::bypasses_pty(true, true, true),
        cli::bypasses_pty(true, false, stdout_tty),
        cli::bypasses_pty(true, stdin_tty, false),
{
}

/// A path that was given is used, whatever the environment says; without one
/// the environment decides.
pub proof fn given_paths_are_used<P>(given: P, env_path: Option<P>)
    ensures
        cli::dump_path(Some(given), env_path) == Some(given),
        cli::dump_path(None, env_path) == env_path,
{
}

/// A PTY has the terminal's size, also in pixels, unless that has no rows or no
/// columns; then, and without a terminal, it has 24 rows of 80 columns.
pub proof fn ptys_have_the_size_of_the_terminal(size: TerminalSize)
    ensures
        size.rows > 0 && size.cols > 0 ==> cli::pty_size(Some(size)) == size,
        size.rows == 0 || size.cols == 0 ==> cli::pty_size(Some(size)) == cli::pty_size(None),
        cli::pty_size(None) == (TerminalSize {
            rows: 24,
            cols: 80,
            pixel_width: 0,
            pixel_height: 0,
        }),
{
}

/// A name without a `/` is found in `PATH` and an absolute path is one; any
/// other name is relative.
pub proof fn names_with_a_slash_are_relative(before: Seq<u8>, after: Seq<u8>)
    requires
        !before.contains('/' as u8),
    ensures
        !cli::is_relative(before),
        cli::is_relative(before + seq!['/' as u8] + after) == (before.len() > 0),
{
    let program = before + seq!['/' as u8] + after;
    assert(program[before.len() as int] == '/' as u8);
    if before.len() > 0 {
        assert(program[0] == before[0]);
        assert(before.contains(before[0]));
    }
}

/// Pointer shapes, which are OSC 22, are relayed exactly where 22 is one of the
/// listed codes, wherever it stands among them.
pub proof fn pointers_are_relayed_where_listed(before: Seq<u16>, after: Seq<u16>, code: u16)
    ensures
        cli::relays(before.push(code) + after, code),
        cli::relays(before + after, code) == (cli::relays(before, code) || cli::relays(
            after,
            code,
        )),
        !cli::relays(seq![], code),
{
    let all = before + after;
    assert((before.push(code) + after)[before.len() as int] == code);
    if all.contains(code) {
        let i = choose|i: int| 0 <= i < all.len() && all[i] == code;
        if i >= before.len() {
            assert(after[i - before.len()] == code);
        } else {
            assert(before[i] == code);
        }
    }
    if before.contains(code) {
        let i = choose|i: int| 0 <= i < before.len() && before[i] == code;
        assert(all[i] == code);
    }
    if after.contains(code) {
        let i = choose|i: int| 0 <= i < after.len() && after[i] == code;
        assert(all[before.len() + i] == code);
    }
}

/// The command and its arguments are all positional arguments, in order; each
/// argument keeps its place.
pub proof fn positional_arguments_keep_their_order(cli: Cli, i: int)
    requires
        0 <= i < cli.args@.len(),
    ensures
        cli.command is Some ==> cli.positionals().len() == cli.args@.len() + 1
            && cli.positionals()[0] == cli.command->0@ && cli.positionals()[i + 1]
            == cli.args@[i]@,
        cli.command is None ==> cli.positionals().len() == cli.args@.len()
            && cli.positionals()[i] == cli.args@[i]@,
{
}

} // verus!
