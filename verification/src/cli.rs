//! What the words of a command line ask for.

use vstd::prelude::*;

use crate::ace::replay::names;
use crate::util::text::{
    begins_with, contains_text, holds_at, number, parse_number, parse_signed, same_text,
    signed_number,
};

verus! {

/// What is common to the counting commands.
pub struct CliArgs {
    pub positional: Vec<String>,
    pub threads: usize,
    pub no_tt: bool,
}

/// The same, for contracts.
#[verifier::ext_equal]
pub struct CliView {
    pub positional: Seq<Seq<char>>,
    pub threads: int,
    pub no_tt: bool,
}

impl CliArgs {
    pub open spec fn view(self) -> CliView {
        CliView {
            positional: names(self.positional@),
            threads: self.threads as int,
            no_tt: self.no_tt,
        }
    }
}

/// At least one thread; one where the word is no number.
pub open spec fn threads_of(args: Seq<Seq<char>>, i: int) -> int {
    if i < args.len() {
        match number(args[i], usize::MAX as int) {
            Some(n) => if n < 1 {
                1
            } else {
                n
            },
            None => 1,
        }
    } else {
        1
    }
}

/// What the words from index `i` on add: `--threads` with its number, `--no-tt`,
/// and everything else in its order.
pub open spec fn cli_from(args: Seq<Seq<char>>, i: int, c: CliView) -> CliView
    decreases args.len() + 2 - i,
{
    if i >= args.len() {
        c
    } else if args[i] == "--threads"@ {
        cli_from(args, i + 2, CliView { threads: threads_of(args, i + 1), ..c })
    } else if args[i] == "--no-tt"@ {
        cli_from(args, i + 1, CliView { no_tt: true, ..c })
    } else {
        cli_from(args, i + 1, CliView { positional: c.positional.push(args[i]), ..c })
    }
}

/// Reads the words.
pub fn parse_cli(args: &Vec<String>) -> (r: CliArgs)
    requires
        args@.len() < usize::MAX - 2,
    ensures
        r.view() == cli_from(
            names(args@),
            0,
            CliView { positional: Seq::empty(), threads: 1, no_tt: false },
        ),
{
    let ghost a = names(args@);
    let mut r: CliArgs = CliArgs { positional: Vec::new(), threads: 1, no_tt: false };
    let mut i: usize = 0;
    assert(r.view() =~= (CliView { positional: Seq::empty(), threads: 1, no_tt: false }));
    while i < args.len()
        invariant
            a == names(args@),
            i < usize::MAX,
            args@.len() < usize::MAX - 2,
            cli_from(a, 0, CliView { positional: Seq::empty(), threads: 1, no_tt: false })
                == cli_from(a, i as int, r.view()),
        decreases args@.len() + 2 - i,
    {
        if same_text(args[i].as_str(), "--threads") {
            let mut n: usize = 1;
            if i + 1 < args.len() {
                if let Some(x) = parse_number(args[i + 1].as_str(), usize::MAX as u64) {
                    if x > 1 {
                        n = x as usize;
                    }
                }
            }
            r.threads = n;
            i += 2;
        } else if same_text(args[i].as_str(), "--no-tt") {
            r.no_tt = true;
            i += 1;
        } else {
            let ghost before = r.positional@;
            r.positional.push(args[i].clone());
            assert(names(r.positional@) =~= names(before).push(a[i as int]));
            i += 1;
        }
    }
    r
}

/// A column letter and a digit.
pub open spec fn looks_like_move(w: Seq<char>) -> bool {
    w.len() >= 2 && 'a' <= w[0] <= 'z' && '0' <= w[1] <= '9'
}

/// Whether a word begins like the name of a move.
pub fn looks_like_algebraic_move(arg: &str) -> (r: bool)
    ensures
        r == looks_like_move(arg@),
{
    if arg.unicode_len() < 2 {
        return false;
    }
    let a: char = arg.get_char(0);
    let b: char = arg.get_char(1);
    'a' <= a && a <= 'z' && '0' <= b && b <= '9'
}

/// An engine of the first family.
pub open spec fn is_ace_name(w: Seq<char>) -> bool {
    ||| w == "ace"@
    ||| w == "ace-v8"@
    ||| w == "ace-v10"@
    ||| w == "ace-v11"@
    ||| w == "ace-cat"@
    ||| w == "ace-ti"@
    ||| w == "ace-v8-ti"@
    ||| w == "ace-v8-ti-pmc"@
    ||| w == "ace-v10-ti"@
    ||| w == "ace-v10-ti-pmc"@
    ||| w == "ace-v11-ti"@
    ||| w == "ace-v11-ti-pmc"@
    ||| w == "ace-pmc"@
    ||| w == "ace-v13"@
    ||| w == "ace-v13-ti"@
    ||| w == "ace-v13-ti-pmc"@
    ||| w == "ace-v13-pure"@
}

fn ace_name(w: &str) -> (r: bool)
    ensures
        r == is_ace_name(w@),
{
    same_text(w, "ace") || same_text(w, "ace-v8") || same_text(w, "ace-v10") || same_text(
        w,
        "ace-v11",
    ) || same_text(w, "ace-cat") || ti_name(w) || same_text(w, "ace-pmc") || same_text(
        w,
        "ace-v13-pure",
    )
}

/// An engine of the first family that takes its moves from a board.
pub open spec fn is_ti_name(w: Seq<char>) -> bool {
    ||| w == "ace-ti"@
    ||| w == "ace-v8-ti"@
    ||| w == "ace-v8-ti-pmc"@
    ||| w == "ace-v10-ti"@
    ||| w == "ace-v10-ti-pmc"@
    ||| w == "ace-v11-ti"@
    ||| w == "ace-v11-ti-pmc"@
    ||| w == "ace-v13"@
    ||| w == "ace-v13-ti"@
    ||| w == "ace-v13-ti-pmc"@
}

fn ti_name(w: &str) -> (r: bool)
    ensures
        r == is_ti_name(w@),
{
    same_text(w, "ace-ti") || same_text(w, "ace-v8-ti") || same_text(w, "ace-v8-ti-pmc")
        || same_text(w, "ace-v10-ti") || same_text(w, "ace-v10-ti-pmc") || same_text(
        w,
        "ace-v11-ti",
    ) || same_text(w, "ace-v11-ti-pmc") || same_text(w, "ace-v13") || same_text(w, "ace-v13-ti")
        || same_text(w, "ace-v13-ti-pmc")
}

/// The engine that the words from index `i` on name first, after `--engine`.
pub open spec fn flag_from(args: Seq<Seq<char>>, i: int) -> Option<int>
    decreases args.len() - i,
{
    if i + 1 >= args.len() {
        None
    } else if args[i] == "--engine"@ && is_ace_name(args[i + 1]) {
        Some(i + 1)
    } else {
        flag_from(args, i + 1)
    }
}

/// The index of the engine's name, if one of the first family is named.
pub fn ace_engine_flag(args: &Vec<String>) -> (r: Option<usize>)
    requires
        args@.len() < usize::MAX,
    ensures
        (match r {
            Some(x) => Some(x as int),
            None => None,
        }) == flag_from(names(args@), 0),
        r matches Some(x) ==> x < args@.len() && is_ace_name(args@[x as int]@),
{
    let ghost a = names(args@);
    let mut i: usize = 0;
    while i + 1 < args.len()
        invariant
            a == names(args@),
            i < usize::MAX,
            args@.len() < usize::MAX,
            flag_from(a, 0) == flag_from(a, i as int),
        decreases args@.len() - i,
    {
        if same_text(args[i].as_str(), "--engine") && ace_name(args[i + 1].as_str()) {
            return Some(i + 1);
        }
        i += 1;
    }
    None
}

/// Where an engine takes its moves from.
#[derive(Debug, Clone, Copy, PartialEq, Eq, Structural)]
pub enum EngineMode {
    /// Its own generator.
    Native,
    /// A board.
    Board,
    /// Its own, and below the root only walls that are worth it.
    Heat,
}

/// The mode of an engine.
pub fn ace_engine_mode(flag: &str) -> (r: EngineMode)
    ensures
        r == mode_of(flag@),
{
    if same_text(flag, "ace-cat") {
        EngineMode::Heat
    } else if ti_name(flag) {
        EngineMode::Board
    } else {
        EngineMode::Native
    }
}

/// The mode of an engine.
pub open spec fn mode_of(flag: Seq<char>) -> EngineMode {
    if flag == "ace-cat"@ {
        EngineMode::Heat
    } else if is_ti_name(flag) {
        EngineMode::Board
    } else {
        EngineMode::Native
    }
}

/// Whether an engine is one of the thirteenth generation.
pub fn is_acev13(flag: &str) -> (r: bool)
    ensures
        r == "ace-v13"@.is_prefix_of(flag@),
{
    begins_with(flag, "ace-v13")
}

/// What a single search is asked for.
pub struct GenmoveArgs {
    pub time_ms: u64,
    pub max_depth: i32,
    pub full: bool,
    pub log: bool,
    pub eme: bool,
    pub moves: Vec<String>,
}

/// The same, for contracts.
#[verifier::ext_equal]
pub struct GenmoveView {
    pub time_ms: u64,
    pub max_depth: int,
    pub full: bool,
    pub log: bool,
    pub eme: bool,
    pub moves: Seq<Seq<char>>,
}

impl GenmoveArgs {
    pub open spec fn view(self) -> GenmoveView {
        GenmoveView {
            time_ms: self.time_ms,
            max_depth: self.max_depth as int,
            full: self.full,
            log: self.log,
            eme: self.eme,
            moves: names(self.moves@),
        }
    }
}

/// How many words an unknown option takes: itself, and the next where that is
/// neither an option nor like a move.
pub open spec fn unknown_width(args: Seq<Seq<char>>, i: int) -> int {
    if i + 1 < args.len() && !"--"@.is_prefix_of(args[i + 1]) && !looks_like_move(args[i + 1]) {
        2
    } else {
        1
    }
}

pub(crate) fn unknown_words(args: &Vec<String>, i: usize) -> (r: usize)
    requires
        i < args@.len(),
    ensures
        r == unknown_width(names(args@), i as int),
{
    if args.len() - i > 1 && !begins_with(args[i + 1].as_str(), "--") && !looks_like_algebraic_move(
        args[i + 1].as_str(),
    ) {
        2
    } else {
        1
    }
}

/// What the words from index `i` on ask. `times` are the words read as
/// durations, where they are such.
pub open spec fn genmove_from(
    args: Seq<Seq<char>>,
    times: Seq<Option<u64>>,
    i: int,
    c: GenmoveView,
) -> GenmoveView
    decreases args.len() + 2 - i,
{
    if i >= args.len() {
        c
    } else {
        let w = args[i];
        let more = i + 1 < args.len();
        if w == "--time"@ {
            if more && times[i + 1] is Some {
                genmove_from(args, times, i + 2, GenmoveView { time_ms: times[i + 1]->0, ..c })
            } else {
                genmove_from(args, times, i + 1, c)
            }
        } else if w == "--depth"@ {
            if more && signed_number(args[i + 1]) is Some {
                genmove_from(
                    args,
                    times,
                    i + 2,
                    GenmoveView { max_depth: signed_number(args[i + 1])->0, ..c },
                )
            } else {
                genmove_from(args, times, i + 1, c)
            }
        } else if w == "--full"@ {
            genmove_from(args, times, i + 1, GenmoveView { full: true, ..c })
        } else if w == "--log"@ {
            genmove_from(args, times, i + 1, GenmoveView { log: true, ..c })
        } else if w == "--eme"@ || w == "--pseudo-mcts"@ {
            genmove_from(args, times, i + 1, GenmoveView { eme: true, ..c })
        } else if w == "--engine"@ {
            genmove_from(args, times, i + 2, c)
        } else if "--"@.is_prefix_of(w) {
            genmove_from(args, times, i + unknown_width(args, i), c)
        } else if looks_like_move(w) {
            genmove_from(args, times, i + 1, GenmoveView { moves: c.moves.push(w), ..c })
        } else {
            genmove_from(args, times, i + 1, c)
        }
    }
}

/// What a single search of an engine is asked for by default: four seconds,
/// thirty plies. Names with `pmc` in them search early walls deeper.
pub open spec fn genmove_default(label: Seq<char>) -> GenmoveView {
    GenmoveView {
        time_ms: 4000,
        max_depth: 30,
        full: false,
        log: false,
        eme: exists|at: int| #[trigger] holds_at(label, "pmc"@, at),
        moves: Seq::empty(),
    }
}

/// Reads the words of a single search, from the third on.
pub fn parse_genmove_ace(args: &Vec<String>, times: &Vec<Option<u64>>, label: &str) -> (r:
    GenmoveArgs)
    requires
        args@.len() < usize::MAX - 2,
        times@.len() == args@.len(),
    ensures
        r.view() == genmove_from(names(args@), times@, 2, genmove_default(label@)),
{
    let ghost a = names(args@);
    let mut r: GenmoveArgs = GenmoveArgs {
        time_ms: 4000,
        max_depth: 30,
        full: false,
        log: false,
        eme: contains_text(label, "pmc"),
        moves: Vec::new(),
    };
    let mut i: usize = 2;
    assert(r.view() =~= genmove_default(label@));
    while i < args.len()
        invariant
            a == names(args@),
            i < usize::MAX,
            args@.len() < usize::MAX - 2,
            times@.len() == args@.len(),
            genmove_from(a, times@, 2, genmove_default(label@)) == genmove_from(
                a,
                times@,
                i as int,
                r.view(),
            ),
        decreases args@.len() + 2 - i,
    {
        let w: &str = args[i].as_str();
        assert(w@ == a[i as int]);
        let more: bool = i + 1 < args.len();
        if same_text(w, "--time") {
            if more && times[i + 1].is_some() {
                r.time_ms = times[i + 1].unwrap();
                i += 2;
            } else {
                i += 1;
            }
        } else if same_text(w, "--depth") {
            let d: Option<i32> = if more {
                parse_signed(args[i + 1].as_str())
            } else {
                None
            };
            match d {
                Some(x) => {
                    r.max_depth = x;
                    i += 2;
                },
                None => {
                    i += 1;
                },
            }
        } else if same_text(w, "--full") {
            r.full = true;
            i += 1;
        } else if same_text(w, "--log") {
            r.log = true;
            i += 1;
        } else if same_text(w, "--eme") || same_text(w, "--pseudo-mcts") {
            r.eme = true;
            i += 1;
        } else if same_text(w, "--engine") {
            i += 2;
        } else if begins_with(w, "--") {
            i += unknown_words(args, i);
        } else if looks_like_algebraic_move(w) {
            let ghost before = r.moves@;
            r.moves.push(args[i].clone());
            assert(names(r.moves@) =~= names(before).push(a[i as int]));
            i += 1;
        } else {
            i += 1;
        }
    }
    r
}

} // verus!
