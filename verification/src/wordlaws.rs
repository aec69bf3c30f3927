//! What options on a line promise: each sets what it names, the last one counts,
//! and the rest stays as it was.

use vstd::prelude::*;

use crate::ace::convert::on_grid;
use crate::arena::{match_from, MatchArgs, MatchEngine};
use crate::cli::{
    cli_from, flag_from, genmove_from, is_ace_name, is_ti_name, looks_like_move, mode_of,
    unknown_width, CliView, EngineMode, GenmoveView,
};
use crate::commands::walked;
use crate::position::board::{Board, Move};
use crate::search::uci::{
    command_of, limits_from, limits_of, number_in, GoLimits, UciCommand, INFINITE_TIME_MS,
};
use crate::util::notation::{lemma_name_means, move_chars};
use crate::util::perft::lemma_played;
use crate::util::text::{
    decimal, integer, is_digits, lemma_integer_reads_back, lemma_number_reads_back, number,
    signed_number,
};

verus! {

// --- the testing protocol ---

/// The word is one that takes the next along.
pub open spec fn takes_next(w: Seq<char>) -> bool {
    ||| w == "movetime"@
    ||| w == "nodes"@
    ||| w == "depth"@
    ||| w == "wtime"@
    ||| w == "btime"@
    ||| w == "winc"@
    ||| w == "binc"@
    ||| w == "movestogo"@
}

proof fn lemma_bounds_before(parts: Seq<Seq<char>>, tail: Seq<Seq<char>>, i: int, c: GoLimits)
    requires
        0 <= i <= parts.len(),
        i < parts.len() ==> !takes_next(parts.last()),
    ensures
        limits_from(parts + tail, i, c) == limits_from(
            parts + tail,
            parts.len() as int,
            limits_from(parts, i, c),
        ),
    decreases parts.len() - i,
{
    if i < parts.len() {
        let w = parts[i];
        assert((parts + tail)[i] == w);
        if i + 1 < parts.len() {
            assert((parts + tail)[i + 1] == parts[i + 1]);
        }
        if takes_next(w) {
            assert(i + 1 < parts.len());
            let number = number_in(parts, i + 1, u64::MAX as int);
            let short = number_in(parts, i + 1, u32::MAX as int);
            assert(number_in(parts + tail, i + 1, u64::MAX as int) == number);
            assert(number_in(parts + tail, i + 1, u32::MAX as int) == short);
            let d = if w == "movetime"@ && number is Some {
                GoLimits { time_ms: number->0 as u64, ..c }
            } else if w != "movetime"@ && w == "nodes"@ && number is Some {
                GoLimits { max_nodes: number->0 as u64, ..c }
            } else if w != "movetime"@ && w != "nodes"@ && w == "depth"@ && short is Some {
                GoLimits { max_depth: short->0 as u32, ..c }
            } else {
                c
            };
            lemma_bound_words();
            assert(limits_from(parts, i, c) == limits_from(parts, i + 2, d));
            assert(limits_from(parts + tail, i, c) == limits_from(parts + tail, i + 2, d));
            lemma_bounds_before(parts, tail, i + 2, d);
        } else if w == "infinite"@ {
            lemma_bounds_before(parts, tail, i + 1, GoLimits { time_ms: INFINITE_TIME_MS, ..c });
        } else {
            lemma_bounds_before(parts, tail, i + 1, c);
        }
    }
}

proof fn lemma_bound_words()
    ensures
        "movetime"@ != "nodes"@,
        "movetime"@ != "depth"@,
        "nodes"@ != "depth"@,
        "infinite"@ != "movetime"@,
        "infinite"@ != "nodes"@,
        "infinite"@ != "depth"@,
        !takes_next("infinite"@),
{
    reveal_strlit("movetime");
    reveal_strlit("nodes");
    reveal_strlit("depth");
    reveal_strlit("infinite");
    reveal_strlit("wtime");
    reveal_strlit("btime");
    reveal_strlit("winc");
    reveal_strlit("binc");
    reveal_strlit("movestogo");
    assert("wtime"@[0] == 'w' && "winc"@[0] == 'w' && "btime"@[0] == 'b' && "binc"@[0] == 'b');
    assert("movestogo"@[0] == 'm');
    assert("movetime"@[0] == 'm');
    assert("nodes"@[0] == 'n');
    assert("depth"@[0] == 'd');
    assert("infinite"@[0] == 'i');
}

/// A bound at the end of a search line is what the search gets, whatever stands
/// before it, and leaves the other bounds as they were: so many milliseconds, at
/// least one, so many nodes, so many plies, or ten minutes where no end is asked
/// for. An unknown word changes nothing.
pub proof fn lemma_last_bound_counts(parts: Seq<Seq<char>>, base: GoLimits, n: nat, w: Seq<char>)
    requires
        parts.len() >= 1,
        !takes_next(parts.last()),
        n <= u32::MAX,
    ensures
        ({
            let before = limits_of(parts, base);
            let time = limits_of(parts + seq!["movetime"@, decimal(n)], base);
            let nodes = limits_of(parts + seq!["nodes"@, decimal(n)], base);
            let depth = limits_of(parts + seq!["depth"@, decimal(n)], base);
            let endless = limits_of(parts + seq!["infinite"@], base);
            let other = limits_of(parts + seq![w], base);
            &&& n >= 1 ==> time == GoLimits { time_ms: n as u64, ..before }
            &&& n == 0 ==> time == GoLimits { time_ms: 1, ..before }
            &&& nodes == GoLimits { max_nodes: n as u64, ..before }
            &&& depth == GoLimits { max_depth: n as u32, ..before }
            &&& endless == GoLimits { time_ms: 600_000, ..before }
            &&& !takes_next(w) && w != "infinite"@ ==> other == before
            &&& before.time_ms >= 1
        }),
{
    let l = parts.len() as int;
    lemma_bound_words();
    lemma_number_reads_back(n, u64::MAX as int);
    lemma_number_reads_back(n, u32::MAX as int);
    let c = limits_from(parts, 1, base);
    let t1 = seq!["movetime"@, decimal(n)];
    let t2 = seq!["nodes"@, decimal(n)];
    let t3 = seq!["depth"@, decimal(n)];
    let t4 = seq!["infinite"@];
    let t5 = seq![w];
    lemma_bounds_before(parts, t1, 1, base);
    lemma_bounds_before(parts, t2, 1, base);
    lemma_bounds_before(parts, t3, 1, base);
    lemma_bounds_before(parts, t4, 1, base);
    lemma_bounds_before(parts, t5, 1, base);
    assert((parts + t1)[l] == "movetime"@ && (parts + t1)[l + 1] == decimal(n));
    assert((parts + t2)[l] == "nodes"@ && (parts + t2)[l + 1] == decimal(n));
    assert((parts + t3)[l] == "depth"@ && (parts + t3)[l + 1] == decimal(n));
    assert((parts + t4)[l] == "infinite"@);
    assert((parts + t5)[l] == w);
    assert(limits_from(parts + t1, l, c) == limits_from(
        parts + t1,
        l + 2,
        GoLimits { time_ms: n as u64, ..c },
    ));
    assert(limits_from(parts + t2, l, c) == limits_from(
        parts + t2,
        l + 2,
        GoLimits { max_nodes: n as u64, ..c },
    ));
    assert(limits_from(parts + t3, l, c) == limits_from(
        parts + t3,
        l + 2,
        GoLimits { max_depth: n as u32, ..c },
    ));
    assert(limits_from(parts + t4, l, c) == limits_from(
        parts + t4,
        l + 1,
        GoLimits { time_ms: 600_000, ..c },
    ));
    if !takes_next(w) && w != "infinite"@ {
        assert(limits_from(parts + t5, l, c) == limits_from(parts + t5, l + 1, c));
    }
}

/// Of a position line exactly the moves are left: `startpos` and `moves` in front
/// of them are passed over, where they stand.
pub proof fn lemma_position_lines(moves: Seq<Seq<char>>, base: GoLimits)
    requires
        moves.len() < usize::MAX - 3,
        moves.len() > 0 ==> moves[0] != "startpos"@ && moves[0] != "moves"@,
    ensures
        command_of(seq!["position"@] + moves, base) == UciCommand::Position(1),
        command_of(seq!["position"@, "startpos"@] + moves, base) == UciCommand::Position(2),
        command_of(seq!["position"@, "moves"@] + moves, base) == UciCommand::Position(2),
        command_of(seq!["position"@, "startpos"@, "moves"@] + moves, base) == UciCommand::Position(
            3,
        ),
{
    reveal_strlit("position");
    reveal_strlit("uci");
    reveal_strlit("isready");
    reveal_strlit("ucinewgame");
    reveal_strlit("startpos");
    reveal_strlit("moves");
    assert("position"@[0] == 'p' && "uci"@[0] == 'u' && "isready"@[0] == 'i' && "ucinewgame"@[0]
        == 'u');
    assert("startpos"@[0] == 's' && "moves"@[0] == 'm');
    let a = seq!["position"@] + moves;
    let b = seq!["position"@, "startpos"@] + moves;
    let c = seq!["position"@, "moves"@] + moves;
    let d = seq!["position"@, "startpos"@, "moves"@] + moves;
    assert(a[0] == "position"@ && b[0] == "position"@ && c[0] == "position"@ && d[0]
        == "position"@);
    assert(b[1] == "startpos"@ && c[1] == "moves"@ && d[1] == "startpos"@ && d[2] == "moves"@);
    if moves.len() > 0 {
        assert(a[1] == moves[0] && b[2] == moves[0]);
    }
}

// --- matches ---

proof fn lemma_no_number(w: Seq<char>, max: int)
    requires
        w.len() > 0,
        w[0] == '-',
    ensures
        number(w, max) is None,
{
    assert(!is_digits(w)) by {
        if is_digits(w) {
            assert('0' <= w[0] <= '9');
        }
    }
}

proof fn lemma_no_engine(w: Seq<char>)
    requires
        w.len() > 0,
        w[0] == '-',
    ensures
        MatchEngine::named(w) is None,
{
    reveal_strlit("titanium");
    reveal_strlit("titanium-cert");
    reveal_strlit("titanium-plain");
    reveal_strlit("ace-v13");
    reveal_strlit("ace-v13-cert");
    reveal_strlit("ace-v13-att");
    reveal_strlit("ace-v13-adaptive-tt");
    reveal_strlit("ace-v13-grafted");
    reveal_strlit("grafted");
    assert("titanium"@[0] == 't' && "titanium-cert"@[0] == 't' && "titanium-plain"@[0] == 't');
    assert("ace-v13"@[0] == 'a' && "ace-v13-cert"@[0] == 'a' && "ace-v13-att"@[0] == 'a'
        && "ace-v13-adaptive-tt"@[0] == 'a' && "ace-v13-grafted"@[0] == 'a');
    assert("grafted"@[0] == 'g');
}

proof fn lemma_options_before(
    args: Seq<Seq<char>>,
    times: Seq<Option<u64>>,
    tail: Seq<Seq<char>>,
    more: Seq<Option<u64>>,
    i: int,
    c: MatchArgs,
)
    requires
        0 <= i <= args.len(),
        times.len() == args.len(),
        tail.len() > 0,
        more.len() == tail.len(),
        tail[0].len() > 0,
        tail[0][0] == '-',
        more[0] is None,
    ensures
        match_from(args + tail, times + more, i, c) == match_from(
            args + tail,
            times + more,
            args.len() as int,
            match_from(args, times, i, c),
        ),
    decreases args.len() - i,
{
    if i < args.len() {
        assert((args + tail)[i] == args[i]);
        lemma_no_number(tail[0], u64::MAX as int);
        lemma_no_number(tail[0], u32::MAX as int);
        lemma_no_number(tail[0], usize::MAX as int);
        lemma_no_engine(tail[0]);
        if i + 1 < args.len() {
            assert((args + tail)[i + 1] == args[i + 1]);
            assert((times + more)[i + 1] == times[i + 1]);
        } else {
            assert((args + tail)[i + 1] == tail[0]);
            assert((times + more)[i + 1] == more[0]);
        }
        assert(crate::arena::match_option(args + tail, times + more, i, c)
            == crate::arena::match_option(args, times, i, c));
        match crate::arena::match_option(args, times, i, c) {
            Some(d) => {
                assert(i + 1 < args.len());
                lemma_options_before(args, times, tail, more, i + 2, d);
            },
            None => {
                lemma_options_before(args, times, tail, more, i + 1, c);
            },
        }
    }
}

/// The word begins like an option.
spec fn dashed(w: Seq<char>) -> bool {
    w.len() > 0 && w[0] == '-'
}

proof fn lemma_match_words()
    ensures
        "--games"@[2] == 'g',
        "--time"@[2] == 't' && "--time"@[3] == 'i',
        "--seed"@[2] == 's',
        "--open"@[2] == 'o',
        "--maxply"@[2] == 'm',
        "--threads"@[2] == 't' && "--threads"@[3] == 'h',
        "--tt-bits"@[2] == 't' && "--tt-bits"@[3] == 't',
        "--a"@[2] == 'a',
        "--b"@[2] == 'b',
        "--vs"@[2] == 'v',
        dashed("--games"@) && dashed("--time"@) && dashed("--seed"@) && dashed("--open"@),
        dashed("--maxply"@) && dashed("--threads"@) && dashed("--tt-bits"@),
        dashed("--a"@) && dashed("--b"@) && dashed("--vs"@),
{
    reveal_strlit("--games");
    reveal_strlit("--time");
    reveal_strlit("--seed");
    reveal_strlit("--open");
    reveal_strlit("--maxply");
    reveal_strlit("--threads");
    reveal_strlit("--tt-bits");
    reveal_strlit("--a");
    reveal_strlit("--b");
    reveal_strlit("--vs");
}

/// The option with its word at the end of a line: what a match is then asked for.
pub open spec fn asked_with(
    args: Seq<Seq<char>>,
    times: Seq<Option<u64>>,
    base: MatchArgs,
    option: Seq<char>,
    word: Seq<char>,
    time: Option<u64>,
) -> MatchArgs {
    match_from(args + seq![option, word], times + seq![None, time], 0, base)
}

/// An option of a match with a word that fits, at the end of a line, sets what it
/// names and nothing else; a word that is no option changes nothing.
pub proof fn lemma_last_option_counts(
    args: Seq<Seq<char>>,
    times: Seq<Option<u64>>,
    base: MatchArgs,
    n: nat,
    time: u64,
    name: Seq<char>,
)
    requires
        times.len() == args.len(),
        n <= u32::MAX,
    ensures
        ({
            let c = match_from(args, times, 0, base);
            let d = decimal(n);
            &&& asked_with(args, times, base, "--games"@, d, None) == (MatchArgs {
                games: n as usize,
                ..c
            })
            &&& asked_with(args, times, base, "--time"@, d, Some(time)) == (MatchArgs {
                time_ms: time,
                ..c
            })
            &&& asked_with(args, times, base, "--seed"@, d, None) == (MatchArgs {
                seed: n as u64,
                ..c
            })
            &&& asked_with(args, times, base, "--open"@, d, None) == (MatchArgs {
                open_plies: n as u32,
                ..c
            })
            &&& asked_with(args, times, base, "--maxply"@, d, None) == (MatchArgs {
                max_ply: n as u32,
                ..c
            })
            &&& asked_with(args, times, base, "--threads"@, d, None) == (MatchArgs {
                threads: n as usize,
                ..c
            })
            &&& asked_with(args, times, base, "--tt-bits"@, d, None) == (MatchArgs {
                tt_bits: Some(n as usize),
                ..c
            })
            &&& MatchEngine::named(name) matches Some(e) ==> {
                &&& asked_with(args, times, base, "--a"@, name, None) == (MatchArgs {
                    engine_a: e,
                    ..c
                })
                &&& asked_with(args, times, base, "--b"@, name, None) == (MatchArgs {
                    engine_b: e,
                    ..c
                })
                &&& asked_with(args, times, base, "--vs"@, name, None) == (MatchArgs {
                    engine_b: e,
                    ..c
                })
            }
        }),
{
    lemma_match_words();
    lemma_number_reads_back(n, u64::MAX as int);
    lemma_number_reads_back(n, u32::MAX as int);
    lemma_number_reads_back(n, usize::MAX as int);
    let d = decimal(n);
    lemma_option_read(args, times, base, "--games"@, d, None);
    lemma_option_read(args, times, base, "--time"@, d, Some(time));
    lemma_option_read(args, times, base, "--seed"@, d, None);
    lemma_option_read(args, times, base, "--open"@, d, None);
    lemma_option_read(args, times, base, "--maxply"@, d, None);
    lemma_option_read(args, times, base, "--threads"@, d, None);
    lemma_option_read(args, times, base, "--tt-bits"@, d, None);
    lemma_option_read(args, times, base, "--a"@, name, None);
    lemma_option_read(args, times, base, "--b"@, name, None);
    lemma_option_read(args, times, base, "--vs"@, name, None);
}

proof fn lemma_option_read(
    args: Seq<Seq<char>>,
    times: Seq<Option<u64>>,
    base: MatchArgs,
    option: Seq<char>,
    word: Seq<char>,
    time: Option<u64>,
)
    requires
        times.len() == args.len(),
        option.len() > 0,
        option[0] == '-',
    ensures
        ({
            let a = args + seq![option, word];
            let t = times + seq![None, time];
            let l = args.len() as int;
            let c = match_from(args, times, 0, base);
            crate::arena::match_option(a, t, l, c) matches Some(e) ==> asked_with(
                args,
                times,
                base,
                option,
                word,
                time,
            ) == e
        }),
        (args + seq![option, word])[args.len() as int] == option,
        (args + seq![option, word])[args.len() as int + 1] == word,
        (times + seq![None, time])[args.len() as int + 1] == time,
{
    let tail = seq![option, word];
    let more = seq![None, time];
    lemma_options_before(args, times, tail, more, 0, base);
    let l = args.len() as int;
    let c = match_from(args, times, 0, base);
    if let Some(e) = crate::arena::match_option(args + tail, times + more, l, c) {
        assert(match_from(args + tail, times + more, l, c) == match_from(
            args + tail,
            times + more,
            l + 2,
            e,
        ));
    }
}

// --- threads and tables ---

proof fn lemma_words_before(args: Seq<Seq<char>>, tail: Seq<Seq<char>>, i: int, c: CliView)
    requires
        0 <= i <= args.len(),
        i < args.len() ==> args.last() != "--threads"@,
    ensures
        cli_from(args + tail, i, c) == cli_from(
            args + tail,
            args.len() as int,
            cli_from(args, i, c),
        ),
    decreases args.len() - i,
{
    if i < args.len() {
        assert((args + tail)[i] == args[i]);
        if args[i] == "--threads"@ {
            assert(i + 1 < args.len());
            assert((args + tail)[i + 1] == args[i + 1]);
            let d = CliView { threads: crate::cli::threads_of(args, i + 1), ..c };
            assert(crate::cli::threads_of(args + tail, i + 1) == d.threads);
            lemma_words_before(args, tail, i + 2, d);
        } else if args[i] == "--no-tt"@ {
            lemma_words_before(args, tail, i + 1, CliView { no_tt: true, ..c });
        } else {
            lemma_words_before(
                args,
                tail,
                i + 1,
                CliView { positional: c.positional.push(args[i]), ..c },
            );
        }
    }
}

/// The last number of threads counts, and is at least one; `--no-tt` is never
/// taken back; every other word is kept, in its place.
pub proof fn lemma_last_thread_count_counts(
    args: Seq<Seq<char>>,
    i: int,
    c: CliView,
    n: nat,
    w: Seq<char>,
)
    requires
        0 <= i <= args.len(),
        i < args.len() ==> args.last() != "--threads"@,
        1 <= n <= u32::MAX,
        w != "--threads"@,
        w != "--no-tt"@,
    ensures
        ({
            let before = cli_from(args, i, c);
            let threads = cli_from(args + seq!["--threads"@, decimal(n)], i, c);
            let none = cli_from(args + seq!["--threads"@, decimal(0)], i, c);
            let no_tt = cli_from(args + seq!["--no-tt"@], i, c);
            let word = cli_from(args + seq![w], i, c);
            &&& threads == (CliView { threads: n as int, ..before })
            &&& none == (CliView { threads: 1, ..before })
            &&& no_tt == (CliView { no_tt: true, ..before })
            &&& word == (CliView { positional: before.positional.push(w), ..before })
        }),
{
    let l = args.len() as int;
    lemma_number_reads_back(n, usize::MAX as int);
    lemma_number_reads_back(0, usize::MAX as int);
    reveal_strlit("--threads");
    reveal_strlit("--no-tt");
    assert("--threads"@[2] == 't' && "--no-tt"@[2] == 'n');
    let t1 = seq!["--threads"@, decimal(n)];
    let t2 = seq!["--threads"@, decimal(0)];
    let t3 = seq!["--no-tt"@];
    let t4 = seq![w];
    lemma_words_before(args, t1, i, c);
    lemma_words_before(args, t2, i, c);
    lemma_words_before(args, t3, i, c);
    lemma_words_before(args, t4, i, c);
    let d = cli_from(args, i, c);
    assert((args + t1)[l] == "--threads"@ && (args + t1)[l + 1] == decimal(n));
    assert((args + t2)[l] == "--threads"@ && (args + t2)[l + 1] == decimal(0));
    assert((args + t3)[l] == "--no-tt"@);
    assert((args + t4)[l] == w);
    assert(cli_from(args + t1, l, d) == cli_from(
        args + t1,
        l + 2,
        CliView { threads: n as int, ..d },
    ));
    assert(cli_from(args + t2, l, d) == cli_from(args + t2, l + 2, CliView { threads: 1, ..d }));
    assert(cli_from(args + t3, l, d) == cli_from(args + t3, l + 1, CliView { no_tt: true, ..d }));
    assert(cli_from(args + t4, l, d) == cli_from(
        args + t4,
        l + 1,
        CliView { positional: d.positional.push(w), ..d },
    ));
}

// --- single searches ---

/// The word can be taken for no number and belongs to no option before it.
spec fn stands_alone(w: Seq<char>) -> bool {
    ||| "--"@.is_prefix_of(w)
    ||| looks_like_move(w)
}

proof fn lemma_alone_is_no_number(w: Seq<char>)
    requires
        stands_alone(w),
    ensures
        signed_number(w) is None,
{
    reveal_strlit("--");
    if "--"@.is_prefix_of(w) {
        assert(w[0] == "--"@[0] && w[1] == "--"@[1]);
        let d = w.skip(1);
        assert(d[0] == '-');
        if is_digits(d) {
            assert('0' <= d[0] <= '9');
        }
    } else {
        if is_digits(w) {
            assert('0' <= w[0] <= '9');
        }
    }
}

proof fn lemma_search_words_before(
    args: Seq<Seq<char>>,
    times: Seq<Option<u64>>,
    tail: Seq<Seq<char>>,
    more: Seq<Option<u64>>,
    i: int,
    c: GenmoveView,
)
    requires
        0 <= i <= args.len(),
        times.len() == args.len(),
        tail.len() > 0,
        more.len() == tail.len(),
        stands_alone(tail[0]),
        more[0] is None,
        i < args.len() ==> args.last() != "--engine"@,
    ensures
        genmove_from(args + tail, times + more, i, c) == genmove_from(
            args + tail,
            times + more,
            args.len() as int,
            genmove_from(args, times, i, c),
        ),
    decreases args.len() - i,
{
    if i < args.len() {
        let a = args + tail;
        let t = times + more;
        let w = args[i];
        assert(a[i] == w);
        lemma_alone_is_no_number(tail[0]);
        if i + 1 < args.len() {
            assert(a[i + 1] == args[i + 1]);
            assert(t[i + 1] == times[i + 1]);
        } else {
            assert(a[i + 1] == tail[0]);
            assert(t[i + 1] == more[0]);
        }
        let n = args.len() as int;
        if w == "--time"@ {
            if i + 1 < args.len() && times[i + 1] is Some {
                let d = GenmoveView { time_ms: times[i + 1]->0, ..c };
                lemma_search_words_before(args, times, tail, more, i + 2, d);
            } else {
                lemma_search_words_before(args, times, tail, more, i + 1, c);
            }
        } else if w == "--depth"@ {
            if i + 1 < args.len() && signed_number(args[i + 1]) is Some {
                let d = GenmoveView { max_depth: signed_number(args[i + 1])->0, ..c };
                lemma_search_words_before(args, times, tail, more, i + 2, d);
            } else {
                lemma_search_words_before(args, times, tail, more, i + 1, c);
            }
        } else if w == "--full"@ {
            let d = GenmoveView { full: true, ..c };
            lemma_search_words_before(args, times, tail, more, i + 1, d);
        } else if w == "--log"@ {
            let d = GenmoveView { log: true, ..c };
            lemma_search_words_before(args, times, tail, more, i + 1, d);
        } else if w == "--eme"@ || w == "--pseudo-mcts"@ {
            let d = GenmoveView { eme: true, ..c };
            lemma_search_words_before(args, times, tail, more, i + 1, d);
        } else if w == "--engine"@ {
            lemma_search_words_before(args, times, tail, more, i + 2, c);
        } else if "--"@.is_prefix_of(w) {
            assert(unknown_width(a, i) == unknown_width(args, i));
            lemma_search_words_before(args, times, tail, more, i + unknown_width(args, i), c);
        } else if looks_like_move(w) {
            let d = GenmoveView { moves: c.moves.push(w), ..c };
            lemma_search_words_before(args, times, tail, more, i + 1, d);
        } else {
            lemma_search_words_before(args, times, tail, more, i + 1, c);
        }
    }
}

proof fn lemma_search_options()
    ensures
        "--time"@[2] == 't',
        "--depth"@[2] == 'd',
        "--full"@[2] == 'f',
        "--log"@[2] == 'l',
        "--eme"@[2] == 'e' && "--eme"@[3] == 'm',
        "--engine"@[2] == 'e' && "--engine"@[3] == 'n',
        "--pseudo-mcts"@[2] == 'p',
        "--"@.is_prefix_of("--time"@) && "--"@.is_prefix_of("--depth"@),
        "--"@.is_prefix_of("--full"@) && "--"@.is_prefix_of("--log"@),
        "--"@.is_prefix_of("--eme"@),
        forall|w: Seq<char>| #[trigger] "--"@.is_prefix_of(w) ==> w.len() >= 2 && w[0] == '-',
        "--time"@[0] == '-' && "--depth"@[0] == '-' && "--full"@[0] == '-' && "--log"@[0] == '-',
        "--eme"@[0] == '-' && "--engine"@[0] == '-' && "--pseudo-mcts"@[0] == '-',
{
    reveal_strlit("--");
    reveal_strlit("--time");
    reveal_strlit("--depth");
    reveal_strlit("--full");
    reveal_strlit("--log");
    reveal_strlit("--eme");
    reveal_strlit("--engine");
    reveal_strlit("--pseudo-mcts");
    assert("--"@ =~= "--time"@.subrange(0, 2));
    assert("--"@ =~= "--depth"@.subrange(0, 2));
    assert("--"@ =~= "--full"@.subrange(0, 2));
    assert("--"@ =~= "--log"@.subrange(0, 2));
    assert("--"@ =~= "--eme"@.subrange(0, 2));
    assert forall|w: Seq<char>| #[trigger] "--"@.is_prefix_of(w) implies w.len() >= 2 && w[0]
        == '-' by {
        assert(w[0] == "--"@[0]);
    }
}

/// At the end of a line a time, a depth of either sign or a switch of a single
/// search sets what it names and nothing else, and a move is the last to be
/// played, whatever stands before it.
pub proof fn lemma_last_search_word_counts(
    args: Seq<Seq<char>>,
    times: Seq<Option<u64>>,
    c: GenmoveView,
    time: u64,
    depth: int,
    word: Seq<char>,
    mv: Seq<char>,
)
    requires
        times.len() == args.len(),
        args.len() > 0 ==> args.last() != "--engine"@,
        -0x8000_0000 <= depth <= 0x7FFF_FFFF,
        looks_like_move(mv),
    ensures
        ({
            let before = genmove_from(args, times, 0, c);
            let timed = genmove_from(
                args + seq!["--time"@, word],
                times + seq![None, Some(time)],
                0,
                c,
            );
            let deep = genmove_from(
                args + seq!["--depth"@, integer(depth)],
                times + seq![None, None],
                0,
                c,
            );
            let full = genmove_from(args + seq!["--full"@], times + seq![None], 0, c);
            let log = genmove_from(args + seq!["--log"@], times + seq![None], 0, c);
            let eme = genmove_from(args + seq!["--eme"@], times + seq![None], 0, c);
            let played = genmove_from(args + seq![mv], times + seq![None], 0, c);
            &&& timed == (GenmoveView { time_ms: time, ..before })
            &&& deep == (GenmoveView { max_depth: depth, ..before })
            &&& full == (GenmoveView { full: true, ..before })
            &&& log == (GenmoveView { log: true, ..before })
            &&& eme == (GenmoveView { eme: true, ..before })
            &&& played == (GenmoveView { moves: before.moves.push(mv), ..before })
        }),
{
    let l = args.len() as int;
    let d = genmove_from(args, times, 0, c);
    lemma_search_options();
    lemma_integer_reads_back(depth);
    let none: Option<u64> = None;
    let t1 = seq!["--time"@, word];
    let m1 = seq![none, Some(time)];
    let t2 = seq!["--depth"@, integer(depth)];
    let m2 = seq![none, none];
    let t3 = seq!["--full"@];
    let t4 = seq!["--log"@];
    let t5 = seq!["--eme"@];
    let t6 = seq![mv];
    let m3 = seq![none];
    lemma_search_words_before(args, times, t1, m1, 0, c);
    lemma_search_words_before(args, times, t2, m2, 0, c);
    lemma_search_words_before(args, times, t3, m3, 0, c);
    lemma_search_words_before(args, times, t4, m3, 0, c);
    lemma_search_words_before(args, times, t5, m3, 0, c);
    lemma_search_words_before(args, times, t6, m3, 0, c);
    assert((args + t1)[l] == "--time"@ && (times + m1)[l + 1] == Some(time));
    assert((args + t2)[l] == "--depth"@ && (args + t2)[l + 1] == integer(depth));
    assert((args + t3)[l] == "--full"@);
    assert((args + t4)[l] == "--log"@);
    assert((args + t5)[l] == "--eme"@);
    assert((args + t6)[l] == mv);
    assert(genmove_from(args + t1, times + m1, l, d) == genmove_from(
        args + t1,
        times + m1,
        l + 2,
        GenmoveView { time_ms: time, ..d },
    ));
    assert(genmove_from(args + t2, times + m2, l, d) == genmove_from(
        args + t2,
        times + m2,
        l + 2,
        GenmoveView { max_depth: depth, ..d },
    ));
    assert(genmove_from(args + t3, times + m3, l, d) == genmove_from(
        args + t3,
        times + m3,
        l + 1,
        GenmoveView { full: true, ..d },
    ));
    assert(genmove_from(args + t4, times + m3, l, d) == genmove_from(
        args + t4,
        times + m3,
        l + 1,
        GenmoveView { log: true, ..d },
    ));
    assert(genmove_from(args + t5, times + m3, l, d) == genmove_from(
        args + t5,
        times + m3,
        l + 1,
        GenmoveView { eme: true, ..d },
    ));
    assert(genmove_from(args + t6, times + m3, l, d) == genmove_from(
        args + t6,
        times + m3,
        l + 1,
        GenmoveView { moves: d.moves.push(mv), ..d },
    ));
}

// --- engines by name ---

/// The engine that a line names is the first one of the family behind `--engine`;
/// without such a pair none is named.
pub proof fn lemma_first_engine_named(args: Seq<Seq<char>>, i: int)
    requires
        0 <= i,
    ensures
        match flag_from(args, i) {
            Some(k) => {
                &&& i < k < args.len()
                &&& args[k - 1] == "--engine"@ && is_ace_name(args[k])
                &&& forall|j: int|
                    i < j < k && (#[trigger] args[j - 1]) == "--engine"@ ==> !is_ace_name(args[j])
            },
            None => forall|j: int|
                i < j < args.len() && (#[trigger] args[j - 1]) == "--engine"@ ==> !is_ace_name(
                    args[j],
                ),
        },
    decreases args.len() - i,
{
    if i + 1 < args.len() && !(args[i] == "--engine"@ && is_ace_name(args[i + 1])) {
        lemma_first_engine_named(args, i + 1);
    }
}

/// Where the engines of the family take their moves from: one goes by heat; the
/// plain ones, the one with deeper early walls and the pure one have a generator of
/// their own; all others take them from a board. A name outside the family means a
/// generator of its own.
pub proof fn lemma_modes_by_name(w: Seq<char>)
    ensures
        mode_of(w) == EngineMode::Heat <==> w == "ace-cat"@,
        is_ace_name(w) ==> (mode_of(w) == EngineMode::Native <==> w == "ace"@ || w == "ace-v8"@ || w
            == "ace-v10"@ || w == "ace-v11"@ || w == "ace-pmc"@ || w == "ace-v13-pure"@),
        !is_ace_name(w) ==> mode_of(w) == EngineMode::Native,
{
    lemma_plain_names();
}

proof fn lemma_plain_names()
    ensures
        is_ace_name("ace-cat"@),
        !is_ti_name("ace-cat"@),
        !is_ti_name("ace"@),
        !is_ti_name("ace-v8"@),
        !is_ti_name("ace-v10"@),
        !is_ti_name("ace-v11"@),
        !is_ti_name("ace-pmc"@),
        !is_ti_name("ace-v13-pure"@),
        "ace"@ != "ace-cat"@,
        "ace-v8"@ != "ace-cat"@,
        "ace-v10"@ != "ace-cat"@,
        "ace-v11"@ != "ace-cat"@,
        "ace-pmc"@ != "ace-cat"@,
        "ace-v13-pure"@ != "ace-cat"@,
{
    reveal_strlit("ace");
    reveal_strlit("ace-v8");
    reveal_strlit("ace-v10");
    reveal_strlit("ace-v11");
    reveal_strlit("ace-cat");
    reveal_strlit("ace-pmc");
    reveal_strlit("ace-v13-pure");
    reveal_strlit("ace-ti");
    reveal_strlit("ace-v8-ti");
    reveal_strlit("ace-v8-ti-pmc");
    reveal_strlit("ace-v10-ti");
    reveal_strlit("ace-v10-ti-pmc");
    reveal_strlit("ace-v11-ti");
    reveal_strlit("ace-v11-ti-pmc");
    reveal_strlit("ace-v13");
    reveal_strlit("ace-v13-ti");
    reveal_strlit("ace-v13-ti-pmc");
    assert("ace"@.len() == 3 && "ace-v8"@.len() == 6 && "ace-ti"@.len() == 6);
    assert("ace-v8-ti"@.len() == 9 && "ace-v8-ti-pmc"@.len() == 13 && "ace-v13"@.len() == 7);
    assert("ace-v10-ti"@.len() == 10 && "ace-v11-ti"@.len() == 10 && "ace-v13-ti"@.len() == 10);
    assert("ace-v10-ti-pmc"@.len() == 14 && "ace-v11-ti-pmc"@.len() == 14);
    assert("ace-v13-ti-pmc"@.len() == 14 && "ace-v13-pure"@.len() == 12);
    assert("ace-v8"@[4] == 'v' && "ace-ti"@[4] == 't');
    assert("ace-v10"@[6] == '0' && "ace-v11"@[6] == '1' && "ace-v13"@[6] == '3');
    assert("ace-cat"@[4] == 'c' && "ace-pmc"@[4] == 'p' && "ace-v13"@[4] == 'v');
    assert("ace-v13-pure"@[8] == 'p');
}

// --- games by names ---

/// A line of names plays one move after the other: the name of a move that can be
/// played leads on as the move does, one that cannot be played ends it for good,
/// and without a name the position is the one at the start.
pub proof fn lemma_names_are_played_in_turn(
    b: Board,
    words: Seq<Seq<char>>,
    from: int,
    n: int,
    mv: Move,
    after: Board,
)
    requires
        0 <= from <= n < words.len(),
        on_grid(mv),
        words[n] == move_chars(mv),
    ensures
        walked(b, words, from, from) == Some(b),
        walked(b, words, from, n) matches Some(x) ==> {
            &&& x.playable(mv) && x.leads_to(mv, after) ==> walked(b, words, from, n + 1) == Some(
                after,
            )
            &&& !x.playable(mv) ==> walked(b, words, from, n + 1) is None
        },
        walked(b, words, from, n) is None ==> walked(b, words, from, n + 1) is None,
{
    lemma_name_means(mv);
    if let Some(x) = walked(b, words, from, n) {
        if x.leads_to(mv, after) {
            lemma_played(x, mv, after);
        }
    }
}

} // verus!
