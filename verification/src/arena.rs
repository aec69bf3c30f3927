//! Games between two engines.

use vstd::prelude::*;

use crate::ace::replay::names;
use crate::movegen::laws::{lemma_legal_fits, lemma_legal_playable};
use crate::movegen::legal::{generate_legal_moves, legal_moves, PawnGenMode};
use crate::path::bfs::{goal_dist_option, shortest_distance};
use crate::path::graph::{goal_dist, has_path, lemma_goal_dist_bound};
use crate::ace::convert::on_grid;
use crate::position::board::{Board, Move, Player};
use crate::util::notation::{format_move, move_chars, parse_algebraic};
use crate::util::perft::{lemma_can_play, lemma_played, played};
use crate::util::text::{number, parse_number, same_text};

verus! {

/// An engine for one side.
#[derive(Debug, Clone, Copy, PartialEq, Eq, Structural)]
pub enum MatchEngine {
    TitaniumCert,
    TitaniumPlain,
    AceV13,
    AceV13Cert,
    AceV13AdaptiveTt,
    AceV13Grafted,
}

impl MatchEngine {
    /// The engine of a name.
    pub open spec fn named(s: Seq<char>) -> Option<MatchEngine> {
        if s == "titanium"@ || s == "titanium-cert"@ {
            Some(MatchEngine::TitaniumCert)
        } else if s == "titanium-plain"@ {
            Some(MatchEngine::TitaniumPlain)
        } else if s == "ace-v13"@ {
            Some(MatchEngine::AceV13)
        } else if s == "ace-v13-cert"@ {
            Some(MatchEngine::AceV13Cert)
        } else if s == "ace-v13-att"@ || s == "ace-v13-adaptive-tt"@ {
            Some(MatchEngine::AceV13AdaptiveTt)
        } else if s == "ace-v13-grafted"@ || s == "grafted"@ {
            Some(MatchEngine::AceV13Grafted)
        } else {
            None
        }
    }

    /// The engine of a name.
    pub fn parse(s: &str) -> (r: Option<MatchEngine>)
        ensures
            r == Self::named(s@),
    {
        if same_text(s, "titanium") || same_text(s, "titanium-cert") {
            Some(MatchEngine::TitaniumCert)
        } else if same_text(s, "titanium-plain") {
            Some(MatchEngine::TitaniumPlain)
        } else if same_text(s, "ace-v13") {
            Some(MatchEngine::AceV13)
        } else if same_text(s, "ace-v13-cert") {
            Some(MatchEngine::AceV13Cert)
        } else if same_text(s, "ace-v13-att") || same_text(s, "ace-v13-adaptive-tt") {
            Some(MatchEngine::AceV13AdaptiveTt)
        } else if same_text(s, "ace-v13-grafted") || same_text(s, "grafted") {
            Some(MatchEngine::AceV13Grafted)
        } else {
            None
        }
    }

    /// What a report calls the engine.
    pub open spec fn title(self) -> Seq<char> {
        match self {
            MatchEngine::TitaniumCert => "Titanium+cert"@,
            MatchEngine::TitaniumPlain => "plain Titanium"@,
            MatchEngine::AceV13 => "ace-v13 (O1 movegen)"@,
            MatchEngine::AceV13Cert => "ace-v13 + cheap-cert (no CAT)"@,
            MatchEngine::AceV13AdaptiveTt => "ace-v13 + adaptive cache-tier TT"@,
            MatchEngine::AceV13Grafted => "ace-v13 grafted (cheap-cert + adaptive-TT)"@,
        }
    }

    /// What a report calls the engine.
    pub fn label(self) -> (r: &'static str)
        ensures
            r@ == self.title(),
    {
        match self {
            MatchEngine::TitaniumCert => "Titanium+cert",
            MatchEngine::TitaniumPlain => "plain Titanium",
            MatchEngine::AceV13 => "ace-v13 (O1 movegen)",
            MatchEngine::AceV13Cert => "ace-v13 + cheap-cert (no CAT)",
            MatchEngine::AceV13AdaptiveTt => "ace-v13 + adaptive cache-tier TT",
            MatchEngine::AceV13Grafted => "ace-v13 grafted (cheap-cert + adaptive-TT)",
        }
    }
}

/// What a match is asked for.
#[derive(Debug, Clone, Copy, PartialEq, Eq, Structural)]
pub struct MatchArgs {
    pub games: usize,
    pub time_ms: u64,
    pub seed: u64,
    pub open_plies: u32,
    pub max_ply: u32,
    pub threads: usize,
    pub tt_bits: Option<usize>,
    pub engine_a: MatchEngine,
    pub engine_b: MatchEngine,
}

/// The number in a word, if there is one.
pub open spec fn number_at(args: Seq<Seq<char>>, i: int, max: int) -> Option<int> {
    if i < args.len() {
        number(args[i], max)
    } else {
        None
    }
}

/// The engine in a word, if there is one.
pub open spec fn engine_at(args: Seq<Seq<char>>, i: int) -> Option<MatchEngine> {
    if i < args.len() {
        MatchEngine::named(args[i])
    } else {
        None
    }
}

/// What an option with its word changes, if it is one and the word is right.
pub open spec fn match_option(
    args: Seq<Seq<char>>,
    times: Seq<Option<u64>>,
    i: int,
    c: MatchArgs,
) -> Option<MatchArgs> {
    let w = args[i];
    let size = number_at(args, i + 1, usize::MAX as int);
    let count = number_at(args, i + 1, u32::MAX as int);
    if w == "--games"@ && size is Some {
        Some(MatchArgs { games: size->0 as usize, ..c })
    } else if w == "--time"@ && i + 1 < args.len() && times[i + 1] is Some {
        Some(MatchArgs { time_ms: times[i + 1]->0, ..c })
    } else if w == "--seed"@ && number_at(args, i + 1, u64::MAX as int) is Some {
        Some(MatchArgs { seed: number_at(args, i + 1, u64::MAX as int)->0 as u64, ..c })
    } else if w == "--open"@ && count is Some {
        Some(MatchArgs { open_plies: count->0 as u32, ..c })
    } else if w == "--maxply"@ && count is Some {
        Some(MatchArgs { max_ply: count->0 as u32, ..c })
    } else if w == "--threads"@ && size is Some {
        Some(MatchArgs { threads: size->0 as usize, ..c })
    } else if w == "--tt-bits"@ && size is Some {
        Some(MatchArgs { tt_bits: Some(size->0 as usize), ..c })
    } else if w == "--a"@ && engine_at(args, i + 1) is Some {
        Some(MatchArgs { engine_a: engine_at(args, i + 1)->0, ..c })
    } else if (w == "--b"@ || w == "--vs"@) && engine_at(args, i + 1) is Some {
        Some(MatchArgs { engine_b: engine_at(args, i + 1)->0, ..c })
    } else {
        None
    }
}

/// What the words from index `i` on ask; what is no option is passed over.
pub open spec fn match_from(
    args: Seq<Seq<char>>,
    times: Seq<Option<u64>>,
    i: int,
    c: MatchArgs,
) -> MatchArgs
    decreases args.len() + 2 - i,
{
    if i >= args.len() {
        c
    } else {
        match match_option(args, times, i, c) {
            Some(d) => match_from(args, times, i + 2, d),
            None => match_from(args, times, i + 1, c),
        }
    }
}

fn size_at(args: &Vec<String>, i: usize, max: u64) -> (r: Option<u64>)
    ensures
        (match r {
            Some(x) => Some(x as int),
            None => None,
        }) == number_at(names(args@), i as int, max as int),
        r matches Some(x) ==> x <= max,
{
    if i < args.len() {
        parse_number(args[i].as_str(), max)
    } else {
        None
    }
}

fn engine_in(args: &Vec<String>, i: usize) -> (r: Option<MatchEngine>)
    ensures
        r == engine_at(names(args@), i as int),
{
    if i < args.len() {
        MatchEngine::parse(args[i].as_str())
    } else {
        None
    }
}

/// What an option with its word changes.
fn read_option(args: &Vec<String>, times: &Vec<Option<u64>>, i: usize, c: MatchArgs) -> (r: Option<
    MatchArgs,
>)
    requires
        i < args@.len(),
        args@.len() < usize::MAX - 2,
        times@.len() == args@.len(),
    ensures
        r == match_option(names(args@), times@, i as int, c),
{
    let w: &str = args[i].as_str();
    assert(w@ == names(args@)[i as int]);
    let size: Option<u64> = size_at(args, i + 1, usize::MAX as u64);
    let count: Option<u64> = size_at(args, i + 1, u32::MAX as u64);
    let seed: Option<u64> = size_at(args, i + 1, u64::MAX);
    let engine: Option<MatchEngine> = engine_in(args, i + 1);
    if same_text(w, "--games") && size.is_some() {
        Some(MatchArgs { games: size.unwrap() as usize, ..c })
    } else if same_text(w, "--time") && i + 1 < args.len() && times[i + 1].is_some() {
        Some(MatchArgs { time_ms: times[i + 1].unwrap(), ..c })
    } else if same_text(w, "--seed") && seed.is_some() {
        Some(MatchArgs { seed: seed.unwrap(), ..c })
    } else if same_text(w, "--open") && count.is_some() {
        Some(MatchArgs { open_plies: count.unwrap() as u32, ..c })
    } else if same_text(w, "--maxply") && count.is_some() {
        Some(MatchArgs { max_ply: count.unwrap() as u32, ..c })
    } else if same_text(w, "--threads") && size.is_some() {
        Some(MatchArgs { threads: size.unwrap() as usize, ..c })
    } else if same_text(w, "--tt-bits") && size.is_some() {
        Some(MatchArgs { tt_bits: Some(size.unwrap() as usize), ..c })
    } else if same_text(w, "--a") && engine.is_some() {
        Some(MatchArgs { engine_a: engine.unwrap(), ..c })
    } else if (same_text(w, "--b") || same_text(w, "--vs")) && engine.is_some() {
        Some(MatchArgs { engine_b: engine.unwrap(), ..c })
    } else {
        None
    }
}

/// What a match is asked for by default.
pub open spec fn match_default(threads: usize) -> MatchArgs {
    MatchArgs {
        games: 100,
        time_ms: 2000,
        seed: 1,
        open_plies: 4,
        max_ply: 200,
        threads,
        tt_bits: None,
        engine_a: MatchEngine::TitaniumCert,
        engine_b: MatchEngine::TitaniumPlain,
    }
}

/// Reads the words of a match, from the third on. `times` are the words read as
/// durations, where they are such; `threads` is the number without a word.
pub fn parse_match(args: &Vec<String>, times: &Vec<Option<u64>>, threads: usize) -> (r: MatchArgs)
    requires
        args@.len() < usize::MAX - 2,
        times@.len() == args@.len(),
    ensures
        r == match_from(names(args@), times@, 2, match_default(threads)),
{
    let ghost a = names(args@);
    let mut r: MatchArgs = MatchArgs {
        games: 100,
        time_ms: 2000,
        seed: 1,
        open_plies: 4,
        max_ply: 200,
        threads,
        tt_bits: None,
        engine_a: MatchEngine::TitaniumCert,
        engine_b: MatchEngine::TitaniumPlain,
    };
    let mut i: usize = 2;
    while i < args.len()
        invariant
            a == names(args@),
            i < usize::MAX,
            args@.len() < usize::MAX - 2,
            times@.len() == args@.len(),
            match_from(a, times@, 2, match_default(threads)) == match_from(a, times@, i as int, r),
        decreases args@.len() + 2 - i,
    {
        match read_option(args, times, i, r) {
            Some(d) => {
                r = d;
                i += 2;
            },
            None => {
                i += 1;
            },
        }
    }
    r
}

/// Pairs of games that keep every thread busy: half the games, rounded up to a
/// multiple of the threads.
pub open spec fn pair_count(games: int, threads: int) -> int {
    ((games + 1) / 2 + threads - 1) / threads * threads
}

/// The number of pairs for a match.
pub fn match_pairs(games: usize, threads: usize) -> (pairs: usize)
    requires
        threads >= 1,
        pair_count(games as int, threads as int) <= usize::MAX,
    ensures
        pairs == pair_count(games as int, threads as int),
        pairs as int % threads as int == 0,
        2 * pairs >= games,
        2 * pairs < games + 1 + 2 * threads,
{
    let raw: usize = games / 2 + games % 2;
    let q: usize = if raw % threads == 0 {
        raw / threads
    } else {
        raw / threads + 1
    };
    proof {
        let t = threads as int;
        let x = raw + threads - 1;
        vstd::arithmetic::div_mod::lemma_fundamental_div_mod(raw as int, t);
        vstd::arithmetic::div_mod::lemma_mod_bound(raw as int, t);
        assert(raw as int / t <= raw) by (nonlinear_arith)
            requires
                t >= 1,
                raw >= 0,
        ;
        let k = raw as int / t;
        let m = raw as int % t;
        if m == 0 {
            assert(x == t * k + (t - 1));
            vstd::arithmetic::div_mod::lemma_fundamental_div_mod_converse(x, t, k, t - 1);
        } else {
            assert(t * (k + 1) == t * k + t) by (nonlinear_arith);
            vstd::arithmetic::div_mod::lemma_fundamental_div_mod_converse(x, t, k + 1, m - 1);
        }
        assert(x / t == q);
        assert(q * t == t * q) by (nonlinear_arith);
        vstd::arithmetic::div_mod::lemma_mod_multiples_basic(q as int, t);
    }
    q * threads
}

/// The next state of the generator.
pub open spec fn stirred(s: u64) -> u64 {
    let a = s ^ (s >> 12);
    let b = a ^ (a << 25);
    b ^ (b >> 27)
}

/// The number drawn from a state.
pub open spec fn drawn(s: u64) -> u64 {
    s.wrapping_mul(0x2545_F491_4F6C_DD1D)
}

/// The random opening of at most `k` moves from a position: each the legal move
/// that the next number picks, until the game is over.
pub open spec fn opening(b: Board, state: u64, k: nat) -> Seq<Move>
    decreases k,
{
    let legal = legal_moves(b, PawnGenMode::O1Lookup);
    if k == 0 || b.winner() is Some || legal.len() == 0 {
        Seq::empty()
    } else {
        let next = stirred(state);
        let mv = legal[drawn(next) as int % legal.len() as int];
        seq![mv] + opening(played(b, mv), next, (k - 1) as nat)
    }
}

/// The names of moves.
pub open spec fn named_moves(m: Seq<Move>) -> Seq<Seq<char>> {
    Seq::new(m.len(), |i: int| move_chars(m[i]))
}

/// The starting position.
pub open spec fn start_board(b: Board) -> bool {
    &&& b.pawns@ == seq![(0u8, 4u8), (8u8, 4u8)]
    &&& b.walls_remaining@ == seq![10u8, 10u8]
    &&& b.horizontal_walls == 0
    &&& b.vertical_walls == 0
    &&& b.side_to_move == Player::One
    &&& b.move_number == 1
    &&& b.keys_current()
}

/// The next state of the generator.
fn stir(s: u64) -> (r: u64)
    ensures
        r == stirred(s),
{
    let a: u64 = s ^ (s >> 12);
    let b: u64 = a ^ (a << 25);
    b ^ (b >> 27)
}

/// The next ply of an opening, if there is one.
fn open_ply(board: &mut Board, state: u64) -> (r: Option<Move>)
    requires
        old(board).wf(),
        old(board).move_number < u32::MAX,
    ensures
        ({
            let legal = legal_moves(*old(board), PawnGenMode::O1Lookup);
            match r {
                None => {
                    &&& old(board).winner() is Some || legal.len() == 0
                    &&& *final(board) == *old(board)
                },
                Some(mv) => {
                    &&& old(board).winner() is None && legal.len() > 0
                    &&& mv == legal[drawn(state) as int % legal.len() as int]
                    &&& *final(board) == played(*old(board), mv)
                    &&& on_grid(mv)
                    &&& final(board).wf()
                    &&& final(board).move_number <= old(board).move_number + 1
                },
            }
        }),
{
    let moves: Vec<Move> = generate_legal_moves(board);
    let ghost legal = legal_moves(*board, PawnGenMode::O1Lookup);
    if board.is_terminal().is_some() || moves.len() == 0 {
        return None;
    }
    let x: u64 = state.wrapping_mul(0x2545_F491_4F6C_DD1D);
    let pick: usize = (x % (moves.len() as u64)) as usize;
    let mv: Move = moves[pick];
    let ghost at = *board;
    proof {
        assert(legal.contains(legal[pick as int]));
        lemma_can_play(at, mv);
        lemma_legal_fits(at, PawnGenMode::O1Lookup, mv);
    }
    board.apply_move(mv);
    proof {
        lemma_legal_playable(at, PawnGenMode::O1Lookup, mv, *board);
        lemma_played(at, mv, *board);
    }
    Some(mv)
}

/// A random opening from the start, the same for the same seed.
pub fn match_random_opening(seed: u64, plies: u32) -> (r: Vec<String>)
    requires
        plies < u32::MAX - 1,
    ensures
        exists|b: Board| #[trigger]
            start_board(b) && names(r@) == named_moves(opening(b, seed | 1, plies as nat)),
{
    let mut board: Board = Board::new();
    let ghost b0 = board;
    let mut state: u64 = seed | 1;
    let mut out: Vec<String> = Vec::new();
    let ghost mut done: Seq<Move> = Seq::empty();
    let mut i: u32 = 0;
    let ghost whole = opening(b0, seed | 1, plies as nat);
    assert(names(out@) =~= named_moves(done));
    assert(done + whole =~= whole);
    while i < plies
        invariant_except_break
            whole == done + opening(board, state, (plies - i) as nat),
        invariant
            i <= plies < u32::MAX - 1,
            board.wf(),
            board.move_number <= 1 + i,
            names(out@) == named_moves(done),
        ensures
            whole == done,
        decreases plies - i,
    {
        let ghost at = board;
        let ghost before = state;
        state = stir(state);
        match open_ply(&mut board, state) {
            None => {
                assert(done + Seq::<Move>::empty() =~= done);
                break;
            },
            Some(mv) => {
                let ghost before_names = out@;
                out.push(format_move(mv));
                proof {
                    assert(names(out@) =~= names(before_names).push(move_chars(mv)));
                    assert(named_moves(done.push(mv)) =~= named_moves(done).push(move_chars(mv)));
                    let rest = opening(board, state, (plies - i - 1) as nat);
                    assert(done + (seq![mv] + rest) =~= done.push(mv) + rest);
                    done = done.push(mv);
                }
            },
        }
        i = i + 1;
        assert(i == plies ==> done + Seq::<Move>::empty() =~= done);
    }
    proof {
        assert(start_board(b0));
        assert(names(out@) == named_moves(opening(b0, seed | 1, plies as nat)));
    }
    out
}

/// Who is nearer at the end, if one is.
pub open spec fn adjudged(b: Board) -> Option<Player> {
    let one = far_or_dist(b, Player::One);
    let two = far_or_dist(b, Player::Two);
    if one < two {
        Some(Player::One)
    } else if two < one {
        Some(Player::Two)
    } else {
        None
    }
}

/// The player's distance, 255 if there is no way.
pub open spec fn far_or_dist(b: Board, p: Player) -> int {
    match goal_dist_option(b, p) {
        Some(d) => d as int,
        None => 255,
    }
}

/// Who is nearer at the end, if one is.
pub fn adjudicate(board: &Board) -> (r: Option<Player>)
    requires
        board.wf(),
    ensures
        r == adjudged(*board),
{
    let one: u8 = match shortest_distance(board, Player::One) {
        Some(d) => d,
        None => 255,
    };
    let two: u8 = match shortest_distance(board, Player::Two) {
        Some(d) => d,
        None => 255,
    };
    if one < two {
        Some(Player::One)
    } else if two < one {
        Some(Player::Two)
    } else {
        None
    }
}

/// Adjudication names a player exactly if that player's shortest way to the goal
/// row is strictly shorter than the other's, where no way counts as longer than
/// any way of the board; it names nobody where both are equal.
pub proof fn lemma_adjudged_is_nearer(b: Board, p: Player)
    requires
        b.wf(),
    ensures
        adjudged(b) == Some(p) <==> has_path(b, p) && (has_path(b, p.opposite_spec()) ==> goal_dist(
            b,
            p,
        ) < goal_dist(b, p.opposite_spec())),
        adjudged(b) is None <==> has_path(b, p) == has_path(b, p.opposite_spec()) && (has_path(b, p)
            ==> goal_dist(b, p) == goal_dist(b, p.opposite_spec())),
{
    lemma_goal_dist_bound(b, p);
    lemma_goal_dist_bound(b, p.opposite_spec());
}

/// A game whose plies are used up is won by the nearer player, whoever moves and
/// whichever engine it is; before that only a player who has arrived wins.
pub proof fn lemma_game_ends_rightly(c: Contest, p: Player)
    requires
        c.board.wf(),
    ensures
        c.left == 0 ==> (c.turn_spec() == Turn::Over(Some(p)) <==> has_path(c.board, p) && (has_path(
            c.board,
            p.opposite_spec(),
        ) ==> goal_dist(c.board, p) < goal_dist(c.board, p.opposite_spec()))),
        c.left > 0 ==> (c.turn_spec() == Turn::Over(Some(p)) <==> c.board.winner() == Some(p)),
        c.left > 0 ==> c.turn_spec() != Turn::Over(None),
        c.turn_spec() == Turn::A <==> c.left > 0 && c.board.winner() is None && c.a_is_one == (
        c.board.side_to_move == Player::One),
        c.turn_spec() == Turn::B <==> c.left > 0 && c.board.winner() is None && c.a_is_one == (
        c.board.side_to_move == Player::Two),
{
    lemma_adjudged_is_nearer(c.board, p);
}

/// Whose turn it is in a game between engines.
#[derive(Debug, Clone, Copy, PartialEq, Eq, Structural)]
pub enum Turn {
    A,
    B,
    /// The game is over; nobody wins a draw.
    Over(Option<Player>),
}

/// A game between two engines.
pub struct Contest {
    pub board: Board,
    pub moves: Vec<String>,
    /// Engine A is player one.
    pub a_is_one: bool,
    /// Plies until the game is adjudged.
    pub left: u32,
}

impl Contest {
    /// Whose turn it is: a game is over when a player arrives, and when its
    /// plies are used up the nearer player wins.
    pub open spec fn turn_spec(self) -> Turn {
        if self.left == 0 {
            Turn::Over(adjudged(self.board))
        } else if self.board.winner() is Some {
            Turn::Over(self.board.winner())
        } else if (self.board.side_to_move == Player::One) == self.a_is_one {
            Turn::A
        } else {
            Turn::B
        }
    }

    /// A game from the start with as many plies.
    pub fn new(a_is_one: bool, max_ply: u32) -> (r: Self)
        ensures
            start_board(r.board),
            r.board.wf(),
            r.moves@.len() == 0,
            r.a_is_one == a_is_one,
            r.left == max_ply,
    {
        Contest { board: Board::new(), moves: Vec::new(), a_is_one, left: max_ply }
    }

    /// Whose turn it is.
    pub fn turn(&self) -> (r: Turn)
        requires
            self.board.wf(),
        ensures
            r == self.turn_spec(),
    {
        if self.left == 0 {
            return Turn::Over(adjudicate(&self.board));
        }
        let w: Option<Player> = self.board.is_terminal();
        if w.is_some() {
            return Turn::Over(w);
        }
        let one: bool = match self.board.side() {
            Player::One => true,
            Player::Two => false,
        };
        if one == self.a_is_one {
            Turn::A
        } else {
            Turn::B
        }
    }

    /// The move of a name, if it can be played.
    pub open spec fn playable_name(self, name: Seq<char>) -> Option<Move> {
        match Board::algebraic_move(vstd::utf8::encode_utf8(name)) {
            Some(mv) => if on_grid(mv) && self.board.playable(mv) {
                Some(mv)
            } else {
                None
            },
            None => None,
        }
    }

    /// Plays a move of the opening; nothing happens if it cannot be played.
    pub fn open_with(&mut self, name: &str) -> (played: bool)
        requires
            old(self).board.wf(),
        ensures
            final(self).board.wf(),
            played == old(self).playable_name(name@) is Some,
            played ==> old(self).board.leads_to(
                old(self).playable_name(name@)->0,
                final(self).board,
            ) && names(final(self).moves@) == names(old(self).moves@).push(name@)
                && final(self).left == old(self).left && final(self).a_is_one
                == old(self).a_is_one,
            !played ==> *final(self) == *old(self),
    {
        match parse_algebraic(name) {
            None => false,
            Some(mv) => {
                let late: bool = match self.board.side() {
                    Player::One => false,
                    Player::Two => self.board.move_number == u32::MAX,
                };
                let walls: bool = match mv {
                    Move::Pawn { .. } => true,
                    Move::Wall { .. } => self.board.walls_remaining[self.board.side_to_move.index()]
                        > 0,
                };
                if late || !walls {
                    return false;
                }
                let ghost b = self.board;
                let ghost before = self.moves@;
                assert(b.playable(mv));
                self.board.apply_move(mv);
                self.moves.push(name.to_owned());
                proof {
                    assert(names(self.moves@) =~= names(before).push(name@));
                    assert(self.board.pawns[0] == self.board.pawns@[0] && self.board.pawns[1]
                        == self.board.pawns@[1]);
                    assert(b.pawns[0] == b.pawns@[0] && b.pawns[1] == b.pawns@[1]);
                }
                true
            },
        }
    }

    /// Plays the move of the engine whose turn it is and counts the ply;
    /// nothing happens if it cannot be played.
    pub fn play(&mut self, name: &str) -> (played: bool)
        requires
            old(self).board.wf(),
            old(self).left > 0,
        ensures
            final(self).board.wf(),
            played == old(self).playable_name(name@) is Some,
            played ==> old(self).board.leads_to(
                old(self).playable_name(name@)->0,
                final(self).board,
            ) && names(final(self).moves@) == names(old(self).moves@).push(name@)
                && final(self).left == old(self).left - 1 && final(self).a_is_one
                == old(self).a_is_one,
            !played ==> *final(self) == *old(self),
    {
        let played: bool = self.open_with(name);
        if played {
            self.left = self.left - 1;
        }
        played
    }
}

/// The state of a match.
#[derive(Debug, Clone, Copy, PartialEq, Eq, Structural)]
pub struct Tally {
    pub a_wins: u32,
    pub b_wins: u32,
    pub draws: u32,
}

impl Tally {
    pub fn new() -> (r: Self)
        ensures
            r == (Tally { a_wins: 0u32, b_wins: 0u32, draws: 0u32 }),
    {
        Tally { a_wins: 0, b_wins: 0, draws: 0 }
    }

    /// Games counted.
    pub open spec fn total(self) -> int {
        self.a_wins + self.b_wins + self.draws
    }

    /// The tally with one more game.
    pub open spec fn with(self, outcome: Option<Player>, a_is_one: bool) -> Tally {
        match outcome {
            None => Tally { draws: (self.draws + 1) as u32, ..self },
            Some(p) => if (p == Player::One) == a_is_one {
                Tally { a_wins: (self.a_wins + 1) as u32, ..self }
            } else {
                Tally { b_wins: (self.b_wins + 1) as u32, ..self }
            },
        }
    }

    /// Counts a game.
    pub fn record(&mut self, outcome: Option<Player>, a_is_one: bool)
        requires
            old(self).total() < u32::MAX,
        ensures
            *final(self) == old(self).with(outcome, a_is_one),
            final(self).total() == old(self).total() + 1,
    {
        match outcome {
            None => {
                self.draws = self.draws + 1;
            },
            Some(p) => {
                let one: bool = match p {
                    Player::One => true,
                    Player::Two => false,
                };
                if one == a_is_one {
                    self.a_wins = self.a_wins + 1;
                } else {
                    self.b_wins = self.b_wins + 1;
                }
            },
        }
    }

    /// Twice the score of engine A: two for a win, one for a draw.
    pub fn double_score(&self) -> (r: u64)
        ensures
            r == 2 * self.a_wins + self.draws,
    {
        2 * (self.a_wins as u64) + self.draws as u64
    }
}

/// A game counts once, for the engine that moves for its winner: engine A's count
/// grows exactly if A is the one to move in a game that goes on with the winner to
/// move.
pub proof fn lemma_win_goes_to_the_mover(t: Tally, c: Contest, p: Player)
    requires
        t.total() < u32::MAX,
        c.left > 0,
        c.board.winner() is None,
        c.board.side_to_move == p,
    ensures
        ({
            let u = t.with(Some(p), c.a_is_one);
            let d = t.with(None, c.a_is_one);
            &&& u.total() == t.total() + 1
            &&& u.draws == t.draws
            &&& c.turn_spec() == Turn::A <==> u.a_wins == t.a_wins + 1
            &&& c.turn_spec() == Turn::B <==> u.b_wins == t.b_wins + 1
            &&& d.draws == t.draws + 1 && d.a_wins == t.a_wins && d.b_wins == t.b_wins
        }),
{
}

/// With colours swapped the same outcome goes to the other engine.
pub proof fn lemma_outcome_swaps(t: Tally, p: Player, a_is_one: bool)
    requires
        t.total() < u32::MAX,
    ensures
        t.with(Some(p), a_is_one).a_wins + t.with(Some(p), !a_is_one).a_wins == 2 * t.a_wins + 1,
        t.with(Some(p), a_is_one).b_wins + t.with(Some(p), !a_is_one).b_wins == 2 * t.b_wins + 1,
        t.with(Some(p), a_is_one) == t.with(Some(p.opposite_spec()), !a_is_one),
{
}

/// With colours swapped the same result goes to the other engine.
pub proof fn lemma_colours_swap(b: Board, left: u32, moves: Vec<String>, a_is_one: bool)
    requires
        left > 0,
        b.winner() is None,
    ensures
        (Contest { board: b, moves, a_is_one, left }).turn_spec() == Turn::A <==> (Contest {
            board: b,
            moves,
            a_is_one: !a_is_one,
            left,
        }).turn_spec() == Turn::B,
{
}

/// The position after the first `i` moves.
pub open spec fn walked_on(b: Board, m: Seq<Move>, i: int) -> Board
    decreases i,
{
    if i <= 0 {
        b
    } else {
        played(walked_on(b, m, i - 1), m[i - 1])
    }
}

proof fn lemma_walked_on_from(b: Board, m: Seq<Move>, i: int)
    requires
        1 <= i <= m.len(),
    ensures
        walked_on(b, m, i) == walked_on(played(b, m[0]), m.drop_first(), i - 1),
    decreases i,
{
    reveal_with_fuel(walked_on, 2);
    if i > 1 {
        lemma_walked_on_from(b, m, i - 1);
        assert(m.drop_first()[i - 2] == m[i - 1]);
    }
}

/// A random opening is a game: every move is legal where it is played, no game
/// goes on past its end, and it has as many moves as asked for unless it ends or
/// the side to move has none.
pub proof fn lemma_opening_is_a_game(b: Board, state: u64, k: nat, i: int)
    ensures
        opening(b, state, k).len() <= k,
        0 <= i < opening(b, state, k).len() ==> {
            let at = walked_on(b, opening(b, state, k), i);
            &&& legal_moves(at, PawnGenMode::O1Lookup).contains(opening(b, state, k)[i])
            &&& at.winner() is None
        },
        opening(b, state, k).len() < k ==> {
            let end = walked_on(b, opening(b, state, k), opening(b, state, k).len() as int);
            end.winner() is Some || legal_moves(end, PawnGenMode::O1Lookup).len() == 0
        },
    decreases k,
{
    let legal = legal_moves(b, PawnGenMode::O1Lookup);
    if k > 0 && b.winner() is None && legal.len() > 0 {
        let next = stirred(state);
        let n = legal.len() as int;
        let d = drawn(next) as int % n;
        assert(0 <= d < n) by (nonlinear_arith)
            requires
                n > 0,
                d == drawn(next) as int % n,
        ;
        let mv = legal[d];
        assert(legal.contains(mv));
        let rest = opening(played(b, mv), next, (k - 1) as nat);
        let all = opening(b, state, k);
        assert(all == seq![mv] + rest);
        assert(all.drop_first() =~= rest);
        assert(all[0] == mv);
        lemma_opening_is_a_game(played(b, mv), next, (k - 1) as nat, i - 1);
        if 1 <= i <= all.len() {
            lemma_walked_on_from(b, all, i);
            if i < all.len() {
                assert(all[i] == rest[i - 1]);
            }
        }
        lemma_walked_on_from(b, all, all.len() as int);
    }
}

/// A longer opening of the same seed begins with the shorter one.
pub proof fn lemma_opening_goes_on(b: Board, state: u64, k: nat, n: nat)
    requires
        k <= n,
    ensures
        opening(b, state, k).is_prefix_of(opening(b, state, n)),
    decreases k,
{
    let legal = legal_moves(b, PawnGenMode::O1Lookup);
    if k > 0 && b.winner() is None && legal.len() > 0 {
        let next = stirred(state);
        let mv = legal[drawn(next) as int % legal.len() as int];
        let short = opening(played(b, mv), next, (k - 1) as nat);
        let long = opening(played(b, mv), next, (n - 1) as nat);
        lemma_opening_goes_on(played(b, mv), next, (k - 1) as nat, (n - 1) as nat);
        assert(short == long.subrange(0, short.len() as int));
        assert(opening(b, state, k) =~= opening(b, state, n).subrange(
            0,
            opening(b, state, k).len() as int,
        )) by {
            assert forall|j: int| 0 <= j < short.len() implies short[j] == #[trigger] long[j] by {
                assert(long.subrange(0, short.len() as int)[j] == long[j]);
            }
        }
    } else {
        assert(opening(b, state, k) =~= opening(b, state, n).subrange(0, 0));
    }
}

/// Pairs of a match: enough for the games, the same number for each thread, and
/// fewer than one more round of the threads.
pub proof fn lemma_pairs_suffice(games: int, threads: int)
    requires
        games >= 0,
        threads >= 1,
    ensures
        2 * pair_count(games, threads) >= games,
        pair_count(games, threads) % threads == 0,
        2 * pair_count(games, threads) < games + 1 + 2 * threads,
        pair_count(games, 1) == (games + 1) / 2,
{
    let raw = (games + 1) / 2;
    let x = raw + threads - 1;
    let q = x / threads;
    vstd::arithmetic::div_mod::lemma_fundamental_div_mod(x, threads);
    vstd::arithmetic::div_mod::lemma_mod_bound(x, threads);
    assert(q * threads == threads * q) by (nonlinear_arith);
    vstd::arithmetic::div_mod::lemma_mod_multiples_basic(q, threads);
    assert(raw / 1 * 1 == raw);
}

} // verus!
