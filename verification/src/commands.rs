//! Words of the commands that work on a board.

use vstd::prelude::*;

use crate::ace::convert::on_grid;
use crate::ace::replay::names;
use crate::arena::{number_at, start_board};
use crate::cli::{looks_like_algebraic_move, looks_like_move, unknown_width, unknown_words};
use crate::position::board::{Board, Move, Player};
use crate::util::notation::parse_algebraic;
use crate::util::perft::{lemma_played, played};
use crate::util::text::{begins_with, parse_number, same_text};

verus! {

/// Plies counted where no depth is given.
pub const DEFAULT_PERFT_DEPTH: u32 = 3;

/// The number in a word, if there is one and it is not above `max`.
fn read_number(args: &Vec<String>, i: usize, max: u64) -> (r: Option<u64>)
    ensures
        (match r {
            Some(x) => Some(x as int),
            None => None,
        }) == number_at(names(args@), i as int, max as int),
{
    if i < args.len() {
        parse_number(args[i].as_str(), max)
    } else {
        None
    }
}

/// The move that a name means on a board, if it can be played.
pub open spec fn named_move(b: Board, w: Seq<char>) -> Option<Move> {
    match Board::algebraic_move(vstd::utf8::encode_utf8(w)) {
        Some(mv) => if on_grid(mv) && b.playable(mv) {
            Some(mv)
        } else {
            None
        },
        None => None,
    }
}

/// The position after the names `from..n`, if all can be played.
pub open spec fn walked(b: Board, words: Seq<Seq<char>>, from: int, n: int) -> Option<Board>
    decreases n - from,
{
    if n <= from {
        Some(b)
    } else {
        match walked(b, words, from, n - 1) {
            Some(x) => match named_move(x, words[n - 1]) {
                Some(mv) => Some(played(x, mv)),
                None => None,
            },
            None => None,
        }
    }
}

proof fn lemma_walk_stuck(b: Board, words: Seq<Seq<char>>, from: int, k: int, n: int)
    requires
        from <= k <= n,
        walked(b, words, from, k) is None,
    ensures
        walked(b, words, from, n) is None,
    decreases n - k,
{
    if k < n {
        lemma_walk_stuck(b, words, from, k, n - 1);
    }
}

/// Plays the move of a name, if it can be played.
fn play_name(board: &mut Board, name: &str) -> (done: bool)
    requires
        old(board).wf(),
    ensures
        final(board).wf(),
        done == named_move(*old(board), name@) is Some,
        done ==> *final(board) == played(*old(board), named_move(*old(board), name@)->0),
        !done ==> *final(board) == *old(board),
{
    match parse_algebraic(name) {
        None => false,
        Some(mv) => {
            let late: bool = match board.side() {
                Player::One => false,
                Player::Two => board.move_number == u32::MAX,
            };
            let walls: bool = match mv {
                Move::Pawn { .. } => true,
                Move::Wall { .. } => board.walls_remaining[board.side_to_move.index()] > 0,
            };
            if late || !walls {
                return false;
            }
            let ghost b = *board;
            assert(b.playable(mv));
            board.apply_move(mv);
            proof {
                lemma_played(b, mv, *board);
                assert(board.pawns[0] == board.pawns@[0] && board.pawns[1] == board.pawns@[1]);
                assert(b.pawns[0] == b.pawns@[0] && b.pawns[1] == b.pawns@[1]);
            }
            true
        },
    }
}

/// Plays the names from index `from` on; `None` if one cannot be played.
pub fn walk_names(board: Board, words: &Vec<String>, from: usize) -> (r: Option<Board>)
    requires
        board.wf(),
        from <= words@.len(),
    ensures
        r == walked(board, names(words@), from as int, words@.len() as int),
        r matches Some(b) ==> b.wf(),
{
    let ghost w = names(words@);
    let mut b: Board = board;
    let mut i: usize = from;
    while i < words.len()
        invariant
            from <= i <= words@.len(),
            w == names(words@),
            b.wf(),
            walked(board, w, from as int, i as int) == Some(b),
        decreases words@.len() - i,
    {
        assert(w[i as int] == words@[i as int]@);
        if !play_name(&mut b, words[i].as_str()) {
            proof {
                lemma_walk_stuck(board, w, from as int, i + 1, words@.len() as int);
            }
            return None;
        }
        i += 1;
    }
    Some(b)
}

/// A board and a depth.
pub open spec fn loaded(b: Board, words: Seq<Seq<char>>, at: int) -> (Option<Board>, int) {
    (
        walked(b, words, at + 1, words.len() as int),
        match number_at(words, at, u32::MAX as int) {
            Some(d) => d,
            None => DEFAULT_PERFT_DEPTH as int,
        },
    )
}

/// The board and the depth of a counting command: the word of index
/// `depth_index` is the depth, those after it are moves from the start.
pub fn load_board(words: &Vec<String>, depth_index: usize) -> (r: (Option<Board>, u32))
    requires
        depth_index < usize::MAX,
    ensures
        exists|b: Board| #[trigger]
            start_board(b) && (r.0, r.1 as int) == loaded(b, names(words@), depth_index as int),
{
    let depth: u32 = match read_number(words, depth_index, u32::MAX as u64) {
        Some(d) => d as u32,
        None => DEFAULT_PERFT_DEPTH,
    };
    let board: Board = Board::new();
    assert(start_board(board));
    if depth_index + 1 >= words.len() {
        (Some(board), depth)
    } else {
        (walk_names(board, words, depth_index + 1), depth)
    }
}

/// What a picture of the planned reductions is asked for.
pub struct LmrArgs {
    pub time_ms: u64,
    pub depth: u32,
    pub moves: Vec<String>,
}

/// The same, for contracts.
#[verifier::ext_equal]
pub struct LmrView {
    pub time_ms: u64,
    pub depth: int,
    pub moves: Seq<Seq<char>>,
}

impl LmrArgs {
    pub open spec fn view(self) -> LmrView {
        LmrView { time_ms: self.time_ms, depth: self.depth as int, moves: names(self.moves@) }
    }
}

/// What the words from index `i` on ask. `times` are the words read as
/// durations, where they are such.
pub open spec fn lmr_from(
    args: Seq<Seq<char>>,
    times: Seq<Option<u64>>,
    i: int,
    c: LmrView,
) -> LmrView
    decreases args.len() + 2 - i,
{
    if i >= args.len() {
        c
    } else {
        let w = args[i];
        if w == "--time"@ {
            if i + 1 < args.len() && times[i + 1] is Some {
                lmr_from(args, times, i + 2, LmrView { time_ms: times[i + 1]->0, ..c })
            } else {
                lmr_from(args, times, i + 1, c)
            }
        } else if w == "--depth"@ {
            match number_at(args, i + 1, u32::MAX as int) {
                Some(d) => lmr_from(args, times, i + 2, LmrView { depth: d, ..c }),
                None => lmr_from(args, times, i + 1, c),
            }
        } else if "--"@.is_prefix_of(w) {
            lmr_from(args, times, i + unknown_width(args, i), c)
        } else if looks_like_move(w) {
            lmr_from(args, times, i + 1, LmrView { moves: c.moves.push(w), ..c })
        } else {
            lmr_from(args, times, i + 1, c)
        }
    }
}

/// Reads the words of a picture, from the third on. `time_ms` is the time
/// without a word.
pub fn parse_lmr(args: &Vec<String>, times: &Vec<Option<u64>>, time_ms: u64) -> (r: LmrArgs)
    requires
        args@.len() < usize::MAX - 2,
        times@.len() == args@.len(),
    ensures
        r.view() == lmr_from(
            names(args@),
            times@,
            2,
            (LmrView { time_ms, depth: 8, moves: Seq::empty() }),
        ),
{
    let ghost a = names(args@);
    let ghost base = LmrView { time_ms, depth: 8, moves: Seq::empty() };
    let mut r: LmrArgs = LmrArgs { time_ms, depth: 8, moves: Vec::new() };
    let mut i: usize = 2;
    assert(r.view() =~= base);
    while i < args.len()
        invariant
            a == names(args@),
            i < usize::MAX,
            args@.len() < usize::MAX - 2,
            times@.len() == args@.len(),
            lmr_from(a, times@, 2, base) == lmr_from(a, times@, i as int, r.view()),
        decreases args@.len() + 2 - i,
    {
        let w: &str = args[i].as_str();
        assert(w@ == a[i as int]);
        if same_text(w, "--time") {
            if i + 1 < args.len() && times[i + 1].is_some() {
                r.time_ms = times[i + 1].unwrap();
                i += 2;
            } else {
                i += 1;
            }
        } else if same_text(w, "--depth") {
            match read_number(args, i + 1, u32::MAX as u64) {
                Some(d) => {
                    r.depth = d as u32;
                    i += 2;
                },
                None => {
                    i += 1;
                },
            }
        } else if begins_with(w, "--") {
            i += unknown_words(args, i);
        } else {
            if looks_like_algebraic_move(w) {
                let ghost before = r.moves@;
                r.moves.push(args[i].clone());
                assert(names(r.moves@) =~= names(before).push(w@));
            }
            i += 1;
        }
    }
    r
}

/// What a comparison of rollouts with a search is asked for.
pub struct RolloutArgs {
    pub sims: u32,
    pub plies: u32,
    pub depth: u32,
    pub seed: u64,
    pub time_ms: u64,
    pub moves: Vec<String>,
}

/// The same, for contracts.
#[verifier::ext_equal]
pub struct RolloutView {
    pub sims: u32,
    pub plies: u32,
    pub depth: u32,
    pub seed: u64,
    pub time_ms: u64,
    pub moves: Seq<Seq<char>>,
}

impl RolloutArgs {
    pub open spec fn view(self) -> RolloutView {
        RolloutView {
            sims: self.sims,
            plies: self.plies,
            depth: self.depth,
            seed: self.seed,
            time_ms: self.time_ms,
            moves: names(self.moves@),
        }
    }
}

/// What an option with the number `n` sets; large numbers lose their upper half.
pub open spec fn rollout_option(w: Seq<char>, n: u64, c: RolloutView) -> Option<RolloutView> {
    if w == "--sims"@ {
        Some(RolloutView { sims: n as u32, ..c })
    } else if w == "--plies"@ {
        Some(RolloutView { plies: n as u32, ..c })
    } else if w == "--cmp-depth"@ {
        Some(RolloutView { depth: n as u32, ..c })
    } else if w == "--seed"@ {
        Some(RolloutView { seed: n, ..c })
    } else {
        None
    }
}

/// The option at index `i` with its number, if both are there.
pub open spec fn rollout_set(args: Seq<Seq<char>>, i: int, c: RolloutView) -> Option<RolloutView> {
    match number_at(args, i + 1, u64::MAX as int) {
        Some(n) => rollout_option(args[i], n as u64, c),
        None => None,
    }
}

/// What the words from index `i` on ask. `times` are the words read as
/// durations, where they are such.
pub open spec fn rollout_from(
    args: Seq<Seq<char>>,
    times: Seq<Option<u64>>,
    i: int,
    c: RolloutView,
) -> RolloutView
    decreases args.len() + 2 - i,
{
    if i >= args.len() {
        c
    } else {
        match rollout_set(args, i, c) {
            Some(d) => rollout_from(args, times, i + 2, d),
            None => if args[i] == "--time"@ && i + 1 < args.len() && times[i + 1] is Some {
                rollout_from(args, times, i + 2, RolloutView { time_ms: times[i + 1]->0, ..c })
            } else if looks_like_move(args[i]) {
                rollout_from(args, times, i + 1, RolloutView { moves: c.moves.push(args[i]), ..c })
            } else {
                rollout_from(args, times, i + 1, c)
            },
        }
    }
}

/// What a comparison is asked for by default.
pub open spec fn rollout_default() -> RolloutView {
    RolloutView { sims: 64, plies: 24, depth: 8, seed: 1, time_ms: 5000, moves: Seq::empty() }
}

/// Sets the option at index `i`, if it is one with its number.
fn set_rollout(args: &Vec<String>, i: usize, r: &mut RolloutArgs) -> (set: bool)
    requires
        i < args@.len() < usize::MAX - 2,
    ensures
        set == rollout_set(names(args@), i as int, old(r).view()) is Some,
        set ==> Some(final(r).view()) == rollout_set(names(args@), i as int, old(r).view()),
        !set ==> *final(r) == *old(r),
{
    let w: &str = args[i].as_str();
    assert(w@ == names(args@)[i as int]);
    match read_number(args, i + 1, u64::MAX) {
        None => false,
        Some(n) => {
            if same_text(w, "--sims") {
                r.sims = n as u32;
                true
            } else if same_text(w, "--plies") {
                r.plies = n as u32;
                true
            } else if same_text(w, "--cmp-depth") {
                r.depth = n as u32;
                true
            } else if same_text(w, "--seed") {
                r.seed = n;
                true
            } else {
                false
            }
        },
    }
}

/// Reads the words of a comparison, from the third on.
pub fn parse_rollout(args: &Vec<String>, times: &Vec<Option<u64>>) -> (r: RolloutArgs)
    requires
        args@.len() < usize::MAX - 2,
        times@.len() == args@.len(),
    ensures
        r.view() == rollout_from(names(args@), times@, 2, rollout_default()),
{
    let ghost a = names(args@);
    let mut r: RolloutArgs = RolloutArgs {
        sims: 64,
        plies: 24,
        depth: 8,
        seed: 1,
        time_ms: 5000,
        moves: Vec::new(),
    };
    let mut i: usize = 2;
    assert(r.view() =~= rollout_default());
    while i < args.len()
        invariant
            a == names(args@),
            i < usize::MAX,
            args@.len() < usize::MAX - 2,
            times@.len() == args@.len(),
            rollout_from(a, times@, 2, rollout_default()) == rollout_from(
                a,
                times@,
                i as int,
                r.view(),
            ),
        decreases args@.len() + 2 - i,
    {
        let w: &str = args[i].as_str();
        assert(w@ == a[i as int]);
        if set_rollout(args, i, &mut r) {
            i += 2;
        } else if same_text(w, "--time") && i + 1 < args.len() && times[i + 1].is_some() {
            r.time_ms = times[i + 1].unwrap();
            i += 2;
        } else {
            if looks_like_algebraic_move(w) {
                let ghost before = r.moves@;
                r.moves.push(args[i].clone());
                assert(names(r.moves@) =~= names(before).push(w@));
            }
            i += 1;
        }
    }
    r
}

/// Which engine chooses a move.
#[derive(Debug, Clone, Copy, PartialEq, Eq, Structural)]
pub enum GenmoveEngine {
    Minimax,
    Greedy,
    Mcts,
}

/// What a single move is asked for.
pub struct GenmoveConfig {
    pub engine: GenmoveEngine,
    pub time_ms: u64,
    pub max_simulations: u64,
    /// The index of the word that holds the exploration constant.
    pub uct: Option<usize>,
    pub max_nodes: u64,
    pub log: bool,
    pub use_cat_guidance: bool,
    pub moves: Vec<String>,
}

/// The same, for contracts.
#[verifier::ext_equal]
pub struct ConfigView {
    pub engine: GenmoveEngine,
    pub time_ms: u64,
    pub max_simulations: int,
    pub uct: Option<int>,
    pub max_nodes: int,
    pub log: bool,
    pub use_cat_guidance: bool,
    pub moves: Seq<Seq<char>>,
}

impl GenmoveConfig {
    pub open spec fn view(self) -> ConfigView {
        ConfigView {
            engine: self.engine,
            time_ms: self.time_ms,
            max_simulations: self.max_simulations as int,
            uct: match self.uct {
                Some(i) => Some(i as int),
                None => None,
            },
            max_nodes: self.max_nodes as int,
            log: self.log,
            use_cat_guidance: self.use_cat_guidance,
            moves: names(self.moves@),
        }
    }

    /// What a single move is asked for where no word says otherwise: a tree
    /// search by playouts, within the limits given.
    pub fn by_default(time_ms: u64, max_simulations: u64, max_nodes: u64, log: bool) -> (r: Self)
        ensures
            r.view() == default_config(time_ms, max_simulations as int, max_nodes as int, log),
    {
        let r: GenmoveConfig = GenmoveConfig {
            engine: GenmoveEngine::Mcts,
            time_ms,
            max_simulations,
            uct: None,
            max_nodes,
            log,
            use_cat_guidance: false,
            moves: Vec::new(),
        };
        assert(names(r.moves@) =~= Seq::<Seq<char>>::empty());
        r
    }
}

/// The configuration without words.
pub open spec fn default_config(
    time_ms: u64,
    max_simulations: int,
    max_nodes: int,
    log: bool,
) -> ConfigView {
    ConfigView {
        engine: GenmoveEngine::Mcts,
        time_ms,
        max_simulations,
        uct: None,
        max_nodes,
        log,
        use_cat_guidance: false,
        moves: Seq::empty(),
    }
}

/// The engine of a name.
pub open spec fn engine_named(w: Seq<char>) -> GenmoveEngine {
    if w == "minimax"@ || w == "ab"@ {
        GenmoveEngine::Minimax
    } else if w == "greedy"@ {
        GenmoveEngine::Greedy
    } else {
        GenmoveEngine::Mcts
    }
}

/// What an option that takes the next word sets, if that word fits.
pub open spec fn config_option(
    args: Seq<Seq<char>>,
    times: Seq<Option<u64>>,
    i: int,
    c: ConfigView,
) -> Option<ConfigView> {
    let w = args[i];
    if i + 1 >= args.len() {
        None
    } else if w == "--engine"@ {
        Some(ConfigView { engine: engine_named(args[i + 1]), ..c })
    } else if w == "--time"@ {
        match times[i + 1] {
            Some(t) => Some(ConfigView { time_ms: t, ..c }),
            None => None,
        }
    } else if w == "--sims"@ {
        match number_at(args, i + 1, u64::MAX as int) {
            Some(n) => Some(ConfigView { max_simulations: n, ..c }),
            None => None,
        }
    } else if w == "--uct"@ {
        match times[i + 1] {
            Some(_) => Some(ConfigView { uct: Some(i + 1), ..c }),
            None => None,
        }
    } else if w == "--nodes"@ {
        match number_at(args, i + 1, u64::MAX as int) {
            Some(n) => Some(ConfigView { max_nodes: n, ..c }),
            None => None,
        }
    } else {
        None
    }
}

/// What a word on its own sets: an option, or a move.
pub open spec fn config_word(w: Seq<char>, c: ConfigView) -> ConfigView {
    if w == "--log"@ {
        ConfigView { log: true, ..c }
    } else if w == "--cat"@ || w == "--cat-guidance"@ || w == "--bridge-mcts"@ {
        ConfigView { use_cat_guidance: true, ..c }
    } else if "--"@.is_prefix_of(w) {
        c
    } else {
        ConfigView { moves: c.moves.push(w), ..c }
    }
}

/// What the words from index `i` on ask. `times` are the words read as
/// durations, where they are numbers.
pub open spec fn config_from(
    args: Seq<Seq<char>>,
    times: Seq<Option<u64>>,
    i: int,
    c: ConfigView,
) -> ConfigView
    decreases args.len() + 2 - i,
{
    if i >= args.len() {
        c
    } else {
        match config_option(args, times, i, c) {
            Some(d) => config_from(args, times, i + 2, d),
            None => config_from(args, times, i + 1, config_word(args[i], c)),
        }
    }
}

fn set_config(args: &Vec<String>, times: &Vec<Option<u64>>, i: usize, r: &mut GenmoveConfig) -> (set:
    bool)
    requires
        i < args@.len() < usize::MAX - 2,
        times@.len() == args@.len(),
    ensures
        set == config_option(names(args@), times@, i as int, old(r).view()) is Some,
        set ==> Some(final(r).view()) == config_option(
            names(args@),
            times@,
            i as int,
            old(r).view(),
        ),
        !set ==> *final(r) == *old(r),
{
    let w: &str = args[i].as_str();
    assert(w@ == names(args@)[i as int]);
    if i + 1 >= args.len() {
        return false;
    }
    let next: &str = args[i + 1].as_str();
    assert(next@ == names(args@)[i + 1]);
    if same_text(w, "--engine") {
        r.engine = if same_text(next, "minimax") || same_text(next, "ab") {
            GenmoveEngine::Minimax
        } else if same_text(next, "greedy") {
            GenmoveEngine::Greedy
        } else {
            GenmoveEngine::Mcts
        };
        return true;
    }
    if same_text(w, "--time") {
        return match times[i + 1] {
            Some(t) => {
                r.time_ms = t;
                true
            },
            None => false,
        };
    }
    if same_text(w, "--sims") {
        return match read_number(args, i + 1, u64::MAX) {
            Some(n) => {
                r.max_simulations = n;
                true
            },
            None => false,
        };
    }
    if same_text(w, "--uct") {
        if times[i + 1].is_some() {
            r.uct = Some(i + 1);
            return true;
        }
        return false;
    }
    if same_text(w, "--nodes") {
        return match read_number(args, i + 1, u64::MAX) {
            Some(n) => {
                r.max_nodes = n;
                true
            },
            None => false,
        };
    }
    false
}

fn take_word(w: &String, r: &mut GenmoveConfig)
    ensures
        final(r).view() == config_word(w@, old(r).view()),
{
    if same_text(w.as_str(), "--log") {
        r.log = true;
    } else if same_text(w.as_str(), "--cat") || same_text(w.as_str(), "--cat-guidance")
        || same_text(w.as_str(), "--bridge-mcts") {
        r.use_cat_guidance = true;
    } else if !begins_with(w.as_str(), "--") {
        let ghost before = r.moves@;
        r.moves.push(w.clone());
        assert(names(r.moves@) =~= names(before).push(w@));
    }
}

/// Reads the words of a single move, from the third on, into a configuration
/// that holds what is asked for by default.
pub fn parse_genmove_config(args: &Vec<String>, times: &Vec<Option<u64>>, base: GenmoveConfig) -> (r:
    GenmoveConfig)
    requires
        args@.len() < usize::MAX - 2,
        times@.len() == args@.len(),
    ensures
        r.view() == config_from(names(args@), times@, 2, base.view()),
{
    let ghost a = names(args@);
    let ghost c0 = base.view();
    let mut r: GenmoveConfig = base;
    let mut i: usize = 2;
    while i < args.len()
        invariant
            a == names(args@),
            i < usize::MAX,
            args@.len() < usize::MAX - 2,
            times@.len() == args@.len(),
            config_from(a, times@, 2, c0) == config_from(a, times@, i as int, r.view()),
        decreases args@.len() + 2 - i,
    {
        assert(args@[i as int]@ == a[i as int]);
        if set_config(args, times, i, &mut r) {
            i += 2;
        } else {
            take_word(&args[i], &mut r);
            i += 1;
        }
    }
    r
}

} // verus!
