//! The testing protocol: what a line asks for.

use vstd::prelude::*;

use crate::ace::replay::names;
use crate::util::text::{number, parse_number, push_text, same_text};

verus! {

/// Time for a search without end, in milliseconds.
pub const INFINITE_TIME_MS: u64 = 600_000;

/// The bounds of a search.
#[derive(Debug, Clone, Copy, PartialEq, Eq, Structural)]
pub struct GoLimits {
    pub time_ms: u64,
    pub max_nodes: u64,
    pub max_depth: u32,
}

/// What a line asks for.
#[derive(Debug, Clone, Copy, PartialEq, Eq, Structural)]
pub enum UciCommand {
    Uci,
    IsReady,
    NewGame,
    /// The moves are the words from this index on.
    Position(usize),
    Go(GoLimits),
    Stop,
    Quit,
    Unknown,
}

/// Where the moves of a position line begin: behind `startpos` and `moves`,
/// where these stand.
pub open spec fn moves_begin(parts: Seq<Seq<char>>) -> int {
    let a = if parts.len() > 1 && parts[1] == "startpos"@ {
        2
    } else {
        1
    };
    if parts.len() > a && parts[a] == "moves"@ {
        a + 1
    } else {
        a
    }
}

/// The number of a word, if it is one.
pub open spec fn number_in(parts: Seq<Seq<char>>, i: int, max: int) -> Option<int> {
    if i < parts.len() {
        number(parts[i], max)
    } else {
        None
    }
}

/// A word whose value is passed over.
pub open spec fn is_clock_word(w: Seq<char>) -> bool {
    w == "wtime"@ || w == "btime"@ || w == "winc"@ || w == "binc"@ || w == "movestogo"@
}

/// The bounds that the words from index `i` on set. A word that should be a
/// number and is none leaves the bound as it was.
pub open spec fn limits_from(parts: Seq<Seq<char>>, i: int, c: GoLimits) -> GoLimits
    decreases parts.len() + 2 - i,
{
    if i >= parts.len() {
        c
    } else {
        let w = parts[i];
        if w == "movetime"@ {
            limits_from(
                parts,
                i + 2,
                match number_in(parts, i + 1, u64::MAX as int) {
                    Some(v) => GoLimits { time_ms: v as u64, ..c },
                    None => c,
                },
            )
        } else if w == "nodes"@ {
            limits_from(
                parts,
                i + 2,
                match number_in(parts, i + 1, u64::MAX as int) {
                    Some(v) => GoLimits { max_nodes: v as u64, ..c },
                    None => c,
                },
            )
        } else if w == "depth"@ {
            limits_from(
                parts,
                i + 2,
                match number_in(parts, i + 1, u32::MAX as int) {
                    Some(v) => GoLimits { max_depth: v as u32, ..c },
                    None => c,
                },
            )
        } else if w == "infinite"@ {
            limits_from(parts, i + 1, GoLimits { time_ms: INFINITE_TIME_MS, ..c })
        } else if is_clock_word(w) {
            limits_from(parts, i + 2, c)
        } else {
            limits_from(parts, i + 1, c)
        }
    }
}

/// The bounds of a search line over those without any word: at least a
/// millisecond.
pub open spec fn limits_of(parts: Seq<Seq<char>>, base: GoLimits) -> GoLimits {
    let c = limits_from(parts, 1, base);
    GoLimits {
        time_ms: if c.time_ms < 1 {
            1
        } else {
            c.time_ms
        },
        ..c
    }
}

fn number_word(parts: &Vec<String>, i: usize, max: u64) -> (r: Option<u64>)
    ensures
        (match r {
            Some(x) => Some(x as int),
            None => None,
        }) == number_in(names(parts@), i as int, max as int),
        r matches Some(x) ==> x <= max,
{
    if i < parts.len() {
        parse_number(parts[i].as_str(), max)
    } else {
        None
    }
}

fn clock_word(w: &str) -> (r: bool)
    ensures
        r == is_clock_word(w@),
{
    same_text(w, "wtime") || same_text(w, "btime") || same_text(w, "winc") || same_text(w, "binc")
        || same_text(w, "movestogo")
}

/// The bounds of a search line.
pub fn parse_go(parts: &Vec<String>, base: GoLimits) -> (r: GoLimits)
    requires
        parts@.len() < usize::MAX - 2,
    ensures
        r == limits_of(names(parts@), base),
{
    let ghost p = names(parts@);
    let mut c: GoLimits = base;
    let mut i: usize = 1;
    while i < parts.len()
        invariant
            p == names(parts@),
            i < usize::MAX,
            parts@.len() < usize::MAX - 2,
            limits_from(p, 1, base) == limits_from(p, i as int, c),
        decreases parts@.len() + 2 - i,
    {
        let w: &str = parts[i].as_str();
        assert(w@ == p[i as int]);
        if same_text(w, "movetime") {
            if let Some(v) = number_word(parts, i + 1, u64::MAX) {
                c.time_ms = v;
            }
            i += 2;
        } else if same_text(w, "nodes") {
            if let Some(v) = number_word(parts, i + 1, u64::MAX) {
                c.max_nodes = v;
            }
            i += 2;
        } else if same_text(w, "depth") {
            if let Some(v) = number_word(parts, i + 1, u32::MAX as u64) {
                c.max_depth = v as u32;
            }
            i += 2;
        } else if same_text(w, "infinite") {
            c.time_ms = INFINITE_TIME_MS;
            i += 1;
        } else if clock_word(w) {
            i += 2;
        } else {
            i += 1;
        }
    }
    if c.time_ms < 1 {
        c.time_ms = 1;
    }
    c
}

/// What a line asks for.
pub open spec fn command_of(parts: Seq<Seq<char>>, base: GoLimits) -> UciCommand {
    let w = parts[0];
    if w == "uci"@ {
        UciCommand::Uci
    } else if w == "isready"@ {
        UciCommand::IsReady
    } else if w == "ucinewgame"@ {
        UciCommand::NewGame
    } else if w == "position"@ {
        UciCommand::Position(moves_begin(parts) as usize)
    } else if w == "go"@ {
        UciCommand::Go(limits_of(parts, base))
    } else if w == "stop"@ {
        UciCommand::Stop
    } else if w == "quit"@ {
        UciCommand::Quit
    } else {
        UciCommand::Unknown
    }
}

/// Reads the words of a line; `base` holds the bounds of a search without any
/// word.
pub fn parse_uci(parts: &Vec<String>, base: GoLimits) -> (r: UciCommand)
    requires
        0 < parts@.len() < usize::MAX - 2,
    ensures
        r == command_of(names(parts@), base),
        r matches UciCommand::Position(k) ==> k <= parts@.len(),
{
    let ghost p = names(parts@);
    let w: &str = parts[0].as_str();
    assert(w@ == p[0]);
    if same_text(w, "uci") {
        UciCommand::Uci
    } else if same_text(w, "isready") {
        UciCommand::IsReady
    } else if same_text(w, "ucinewgame") {
        UciCommand::NewGame
    } else if same_text(w, "position") {
        let mut k: usize = 1;
        if parts.len() > 1 && same_text(parts[1].as_str(), "startpos") {
            k = 2;
        }
        if parts.len() > k && same_text(parts[k].as_str(), "moves") {
            k += 1;
        }
        UciCommand::Position(k)
    } else if same_text(w, "go") {
        UciCommand::Go(parse_go(parts, base))
    } else if same_text(w, "stop") {
        UciCommand::Stop
    } else if same_text(w, "quit") {
        UciCommand::Quit
    } else {
        UciCommand::Unknown
    }
}

/// The answer to an unknown word.
pub fn unknown_reply(word: &str) -> (r: String)
    ensures
        r@ == "info string unknown command "@ + word@,
{
    let mut s: String = String::new();
    push_text(&mut s, "info string unknown command ");
    push_text(&mut s, word);
    assert(s@ =~= "info string unknown command "@ + word@);
    s
}

} // verus!
