//! Games between two searches.

use vstd::prelude::*;

use crate::ace::certify::{legal_in, lemma_legal_playable};
use crate::ace::convert::{
    lemma_mirror_moves, lemma_move_round_trip, mirrors, on_grid, to_ace, to_board,
};
use crate::ace::engines::{seat_bits, seat_config, seat_search};
use crate::ace::eval::{tame, NetInput};
use crate::ace::game::{AceGame, AceState, ACE_NO_MOVE};
use crate::ace::replay::{
    names, open_game, play_open, read_move, start_game, start_keys, start_state, word_move,
    MAX_GAME_LENGTH,
};
use crate::ace::search::{listens, vouched, AceSearch, Progress};
use crate::ace::think::{lemma_unlearnt_vouched, thinks, unlearnt, ThinkResult};
use crate::arena::{start_board, Contest, MatchEngine, Turn};
use crate::commands::{named_move, walked};
use crate::position::board::{Board, Move, Player};
use crate::util::bits::lemma_bits64;
use crate::util::grid::slot;
use crate::util::notation::{ace_to_algebraic, lemma_name_means, move_chars};
use crate::util::perft::{lemma_played, played};

verus! {

/// Depth of every search in a match.
pub const DUEL_DEPTH: i32 = 30;

/// A game at its end, and who has won it.
pub struct GameEnd {
    pub contest: Contest,
    pub outcome: Option<Player>,
}

/// What two engines are asked to play.
#[derive(Clone, Copy)]
pub struct DuelArgs {
    pub a_is_one: bool,
    pub time_ms: u64,
    pub max_ply: u32,
    pub engine_a: MatchEngine,
    pub engine_b: MatchEngine,
    /// Index bits of the table of engine A.
    pub tt_bits: Option<usize>,
    /// The cache tiers, in index bits.
    pub tiers: (usize, usize, usize),
}

impl DuelArgs {
    pub open spec fn ok(self) -> bool {
        &&& self.tt_bits matches Some(b) ==> b <= 31
        &&& self.tiers.0 <= 29
        &&& self.tiers.1 <= 30
        &&& self.tiers.2 <= 31
    }
}

/// The moves of a game lead from the start to its board.
pub open spec fn played_out(c: Contest) -> bool {
    exists|b: Board| #[trigger]
        start_board(b) && walked(b, names(c.moves@), 0, c.moves@.len() as int) == Some(c.board)
}

/// The side to move has no legal move.
pub open spec fn stuck(b: Board) -> bool {
    exists|s: AceState| #[trigger] mirrors(b, s) && forall|m: i16| !(#[trigger] legal_in(s, m))
}

/// An opening that can be played from the start.
pub open spec fn opens(opening: Seq<Seq<char>>, n: int, s: AceState) -> Option<AceState>
    decreases n,
{
    if n <= 0 {
        Some(s)
    } else {
        match opens(opening, n - 1, s) {
            Some(t) => match word_move(t, opening[n - 1]) {
                Some(m) => Some(t.after(m)),
                None => None,
            },
            None => None,
        }
    }
}

proof fn lemma_opens_stuck(opening: Seq<Seq<char>>, k: int, n: int, s: AceState)
    requires
        k <= n,
        opens(opening, k, s) is None,
    ensures
        opens(opening, n, s) is None,
    decreases n - k,
{
    if k < n {
        lemma_opens_stuck(opening, k, n - 1, s);
    }
}

/// Where a list leads depends on its first moves alone.
proof fn lemma_walked_same(b: Board, w: Seq<Seq<char>>, x: Seq<Seq<char>>, n: int)
    requires
        n <= w.len(),
        n <= x.len(),
        forall|i: int| 0 <= i < n ==> w[i] == x[i],
    ensures
        walked(b, w, 0, n) == walked(b, x, 0, n),
    decreases n,
{
    if n > 0 {
        lemma_walked_same(b, w, x, n - 1);
    }
}

/// One more move.
proof fn lemma_walked_more(b: Board, before: Contest, after: Contest, name: Seq<char>, mv: Move)
    requires
        start_board(b),
        walked(b, names(before.moves@), 0, before.moves@.len() as int) == Some(before.board),
        named_move(before.board, name) == Some(mv),
        before.board.leads_to(mv, after.board),
        names(after.moves@) == names(before.moves@).push(name),
    ensures
        walked(b, names(after.moves@), 0, after.moves@.len() as int) == Some(after.board),
{
    let w = names(before.moves@);
    let x = names(after.moves@);
    let n = before.moves@.len() as int;
    assert(x.len() == n + 1);
    lemma_walked_same(b, w, x, n);
    assert(x[n] == name);
    lemma_played(before.board, mv, after.board);
}

/// A game, the position of both searches, and the moves agree.
#[verifier::opaque]
spec fn in_step(c: Contest, s: AceState, b: Board) -> bool {
    &&& c.board.wf()
    &&& mirrors(c.board, s)
    &&& start_board(b)
    &&& walked(b, names(c.moves@), 0, c.moves@.len() as int) == Some(c.board)
    &&& c.board.move_number <= 1 + c.moves@.len()
    &&& s.hist.len() == c.moves@.len()
}

proof fn lemma_start_in_step(c: Contest)
    requires
        start_board(c.board),
        c.board.wf(),
        c.moves@.len() == 0,
    ensures
        in_step(c, start_state(), c.board),
{
    reveal(in_step);
    reveal(start_keys);
    assert(c.board.pawns[0] == c.board.pawns@[0] && c.board.pawns[1] == c.board.pawns@[1]);
    assert(c.board.walls_remaining[0] == c.board.walls_remaining@[0]);
    assert(c.board.walls_remaining[1] == c.board.walls_remaining@[1]);
    assert forall|r: int, c: int| 0 <= r < 8 && 0 <= c < 8 implies #[trigger] slot(0u64, r, c) == slot(
        0u64,
        7 - r,
        c,
    ) by {
        lemma_bits64(0, 0, r * 8 + c);
        lemma_bits64(0, 0, (7 - r) * 8 + c);
    }
}

/// One more move keeps everything in step.
proof fn lemma_step(
    before: Contest,
    after: Contest,
    s: AceState,
    b: Board,
    name: Seq<char>,
    mv: Move,
    m: i16,
)
    requires
        in_step(before, s, b),
        s.wf(),
        on_grid(mv),
        to_ace(mv) == m,
        named_move(before.board, name) == Some(mv),
        before.board.leads_to(mv, after.board),
        after.board.wf(),
        names(after.moves@) == names(before.moves@).push(name),
    ensures
        in_step(after, s.after(m), b),
{
    reveal(in_step);
    lemma_walked_more(b, before, after, name, mv);
    assert(names(after.moves@).len() == names(before.moves@).len() + 1);
    lemma_mirror_moves(before.board, mv, after.board, s);
}

/// What agrees in a game in step.
proof fn lemma_in_step(c: Contest, s: AceState, b: Board)
    requires
        in_step(c, s, b),
    ensures
        c.board.wf(),
        mirrors(c.board, s),
        start_board(b),
        walked(b, names(c.moves@), 0, c.moves@.len() as int) == Some(c.board),
        c.board.move_number <= 1 + c.moves@.len(),
        s.hist.len() == c.moves@.len(),
{
    reveal(in_step);
}

/// A game at its start, and the position of the searches.
fn first_position(a_is_one: bool, max_ply: u32) -> (r: (Contest, AceGame))
    ensures
        open_game(r.1),
        r.1@ == start_state(),
        in_step(r.0, r.1@, r.0.board),
        r.0.moves@.len() == 0,
        r.0.a_is_one == a_is_one,
        r.0.left == max_ply,
{
    let c: Contest = Contest::new(a_is_one, max_ply);
    proof {
        lemma_start_in_step(c);
    }
    (c, start_game())
}

/// Plays one move of an opening by its name, if it can be played.
fn open_one(c: &mut Contest, g: &mut AceGame, name: &str, Ghost(b): Ghost<Board>) -> (done: bool)
    requires
        open_game(*old(g)),
        in_step(*old(c), old(g)@, b),
    ensures
        done == (word_move(old(g)@, name@) is Some),
        done ==> {
            &&& open_game(*final(g))
            &&& final(g)@ == old(g)@.after(word_move(old(g)@, name@)->0)
            &&& in_step(*final(c), final(g)@, b)
            &&& names(final(c).moves@) == names(old(c).moves@).push(name@)
            &&& final(c).a_is_one == old(c).a_is_one
            &&& final(c).left == old(c).left
        },
{
    let ghost s = g@;
    let ghost c0 = *c;
    proof {
        lemma_in_step(*c, s, b);
    }
    match read_move(g, name) {
        None => false,
        Some(m) => {
            let ghost mv = Board::algebraic_move(vstd::utf8::encode_utf8(name@))->0;
            proof {
                lemma_move_round_trip(mv, m);
                lemma_playable_there(c.board, s, mv);
            }
            let done: bool = c.open_with(name);
            assert(done);
            play_open(g, m);
            proof {
                lemma_step(c0, *c, s, b, name@, mv, m);
            }
            true
        },
    }
}

/// Plays an opening; the game and the position of the searches.
fn set_up(opening: &Vec<String>, a_is_one: bool, max_ply: u32) -> (r: Option<(Contest, AceGame)>)
    ensures
        match r {
            Some((c, g)) => {
                &&& open_game(g)
                &&& opens(names(opening@), opening@.len() as int, start_state()) == Some(g@)
                &&& exists|b: Board| in_step(c, g@, b)
                &&& names(c.moves@) == names(opening@)
                &&& c.a_is_one == a_is_one
                &&& c.left == max_ply
            },
            None => opens(names(opening@), opening@.len() as int, start_state()) is None,
        },
{
    let ghost w = names(opening@);
    let (mut c, mut g) = first_position(a_is_one, max_ply);
    let ghost b = c.board;
    let mut i: usize = 0;
    proof {
        assert(names(c.moves@) =~= w.subrange(0, 0));
    }
    while i < opening.len()
        invariant
            i <= opening@.len(),
            w == names(opening@),
            open_game(g),
            opens(w, i as int, start_state()) == Some(g@),
            in_step(c, g@, b),
            names(c.moves@) == w.subrange(0, i as int),
            c.a_is_one == a_is_one,
            c.left == max_ply,
        decreases opening@.len() - i,
    {
        let name: &str = opening[i].as_str();
        assert(name@ == w[i as int]);
        if !open_one(&mut c, &mut g, name, Ghost(b)) {
            proof {
                lemma_opens_stuck(w, i + 1, opening@.len() as int, start_state());
            }
            return None;
        }
        assert(names(c.moves@) =~= w.subrange(0, i + 1));
        i += 1;
    }
    assert(w.subrange(0, i as int) =~= w);
    assert(names(c.moves@) == names(opening@));
    assert(in_step(c, g@, b));
    Some((c, g))
}

/// What can be played in the game can be played on the board.
proof fn lemma_playable_there(b: Board, s: AceState, mv: Move)
    requires
        b.wf(),
        mirrors(b, s),
        on_grid(mv),
        s.playable(to_ace(mv)),
        b.move_number < u32::MAX,
    ensures
        b.playable(mv),
{
    lemma_move_round_trip(mv, to_ace(mv));
}

/// Nobody has won a game on the board: nobody has in the game.
proof fn lemma_nobody_won(b: Board, s: AceState)
    requires
        b.wf(),
        mirrors(b, s),
        b.winner() is None,
    ensures
        s.winner_spec() == -1,
{
    assert(b.pawns[0] == b.pawns@[0] && b.pawns[1] == b.pawns@[1]);
}

/// The search of an engine that takes its seat at a position.
pub open spec fn seated(
    x: AceSearch,
    engine: MatchEngine,
    tt_bits: Option<usize>,
    start_bits: usize,
    s: AceState,
) -> bool {
    &&& x.g@ == s
    &&& unlearnt(x)
    &&& seat_config(engine) == Some(x.config)
    &&& x.tt.bits == seat_bits(engine, tt_bits, start_bits)
}

/// A search has followed a move of the game.
pub open spec fn followed(a: AceSearch, m: i16, b: AceSearch) -> bool {
    &&& b.g@ == a.g@.after(m)
    &&& b == (AceSearch { g: b.g, bridge: b.bridge, fields: b.fields, ..a })
}

/// A ply: the mover thinks for the time given, plays the move it finds, which
/// is legal and has the name, and both searches follow it.
#[verifier::opaque]
pub open spec fn taken<N: Fn(NetInput) -> i32>(
    net: N,
    time_ms: int,
    mover: AceSearch,
    other: AceSearch,
    mover_next: AceSearch,
    other_next: AceSearch,
    name: Seq<char>,
) -> bool {
    exists|mid: AceSearch, r: ThinkResult|
        #![trigger thinks(net, mover, mid, None, time_ms, DUEL_DEPTH as int, false, r)]
        {
            &&& thinks(net, mover, mid, None, time_ms, DUEL_DEPTH as int, false, r)
            &&& legal_in(mover.g@, r.mv)
            &&& name == move_chars(to_board(r.mv))
            &&& followed(mid, r.mv, mover_next)
            &&& followed(other, r.mv, other_next)
            &&& mid.g@ == mover.g@
            &&& mid.config == mover.config
        }
}

/// Both searches at a ply.
pub struct Seats {
    pub a: AceSearch,
    pub b: AceSearch,
}

/// The plies of a game after its opening, from seats to seats: the seat whose
/// turn it is takes each.
pub open spec fn game_course<N: Fn(NetInput) -> i32>(
    net: N,
    args: DuelArgs,
    from: int,
    moves: Seq<Seq<char>>,
    course: Seq<Seats>,
) -> bool {
    &&& course.len() == moves.len() - from + 1
    &&& seated(course[0].a, args.engine_a, args.tt_bits, args.tiers.0, course[0].a.g@)
    &&& seated(course[0].b, args.engine_b, None, args.tiers.0, course[0].a.g@)
    &&& forall|i: int|
        0 <= i < moves.len() - from ==> ply_taken(net, args, #[trigger] course[i], course[i + 1], moves[
            from + i])
}

/// One ply from seats to seats.
pub open spec fn ply_taken<N: Fn(NetInput) -> i32>(
    net: N,
    args: DuelArgs,
    x: Seats,
    y: Seats,
    name: Seq<char>,
) -> bool {
    if (x.a.g@.turn == 0) == args.a_is_one {
        taken(net, args.time_ms as int, x.a, x.b, y.a, y.b, name)
    } else {
        taken(net, args.time_ms as int, x.b, x.a, y.b, y.a, name)
    }
}

/// One more ply.
proof fn lemma_course_more<N: Fn(NetInput) -> i32>(
    net: N,
    args: DuelArgs,
    from: int,
    moves: Seq<Seq<char>>,
    more: Seq<Seq<char>>,
    course: Seq<Seats>,
    y: Seats,
)
    requires
        0 <= from <= moves.len(),
        game_course(net, args, from, moves, course),
        more.len() == moves.len() + 1,
        more.drop_last() == moves,
        ply_taken(net, args, course.last(), y, more.last()),
    ensures
        game_course(net, args, from, more, course.push(y)),
{
    let z = course.push(y);
    assert(z[0] == course[0]);
    assert forall|i: int| 0 <= i < more.len() - from implies ply_taken(
        net,
        args,
        #[trigger] z[i],
        z[i + 1],
        more[from + i],
    ) by {
        if i < moves.len() - from {
            assert(more.drop_last()[from + i] == more[from + i]);
            assert(z[i] == course[i] && z[i + 1] == course[i + 1]);
        }
    }
}

/// A ply keeps both searches vouched for: what their tables hold are scores of
/// searches.
proof fn lemma_ply_vouched<N: Fn(NetInput) -> i32>(
    net: N,
    time_ms: int,
    mover: AceSearch,
    other: AceSearch,
    mover_next: AceSearch,
    other_next: AceSearch,
    name: Seq<char>,
)
    requires
        taken(net, time_ms, mover, other, mover_next, other_next, name),
        vouched(net, mover),
        vouched(net, other),
    ensures
        vouched(net, mover_next),
        vouched(net, other_next),
{
    reveal(taken);
    let (mid, r) = choose|mid: AceSearch, r: ThinkResult|
        #![trigger thinks(net, mover, mid, None, time_ms, DUEL_DEPTH as int, false, r)]
        {
            &&& thinks(net, mover, mid, None, time_ms, DUEL_DEPTH as int, false, r)
            &&& legal_in(mover.g@, r.mv)
            &&& name == move_chars(to_board(r.mv))
            &&& followed(mid, r.mv, mover_next)
            &&& followed(other, r.mv, other_next)
            &&& mid.g@ == mover.g@
            &&& mid.config == mover.config
        };
    assert(mover_next.tt == mid.tt && mover_next.config == mid.config);
    assert(other_next.tt == other.tt && other_next.config == other.config);
}

/// All through a game both searches are vouched for, so every iteration of every
/// ply is a search to its depth.
pub proof fn lemma_game_vouched<N: Fn(NetInput) -> i32>(
    net: N,
    args: DuelArgs,
    from: int,
    moves: Seq<Seq<char>>,
    course: Seq<Seats>,
    i: int,
)
    requires
        game_course(net, args, from, moves, course),
        0 <= from <= moves.len(),
        0 <= i < course.len(),
    ensures
        vouched(net, course[i].a),
        vouched(net, course[i].b),
    decreases i,
{
    if i == 0 {
        lemma_unlearnt_vouched(net, course[0].a);
        lemma_unlearnt_vouched(net, course[0].b);
    } else {
        lemma_game_vouched(net, args, from, moves, course, i - 1);
        let x = course[i - 1];
        let y = course[i - 1 + 1];
        let name = moves[from + (i - 1)];
        assert(ply_taken(net, args, course[i - 1], course[i - 1 + 1], moves[from + (i - 1)]));
        let t = args.time_ms as int;
        if (x.a.g@.turn == 0) == args.a_is_one {
            lemma_ply_vouched(net, t, x.a, x.b, y.a, y.b, name);
        } else {
            lemma_ply_vouched(net, t, x.b, x.a, y.b, y.a, name);
        }
    }
}

/// Lets the side to move play; `false` if it has no move.
fn play_turn<N: Fn(NetInput) -> i32, R: Fn(Progress)>(
    c: &mut Contest,
    mover: &mut AceSearch,
    other: &mut AceSearch,
    time_ms: u64,
    net: &N,
    report: &R,
    Ghost(b): Ghost<Board>,
) -> (moved: bool)
    requires
        old(mover).ready(0),
        old(other).ready(0),
        old(mover).g@ == old(other).g@,
        in_step(*old(c), old(mover).g@, b),
        old(c).left > 0,
        old(c).board.winner() is None,
        old(c).moves@.len() + old(c).left <= MAX_GAME_LENGTH,
        tame(*net),
        listens(*report),
    ensures
        final(mover).ready(0),
        final(other).ready(0),
        final(mover).g@ == final(other).g@,
        in_step(*final(c), final(mover).g@, b),
        final(c).a_is_one == old(c).a_is_one,
        moved ==> final(c).left == old(c).left - 1 && final(c).moves@.len() == old(c).moves@.len()
            + 1 && names(final(c).moves@).drop_last() == names(old(c).moves@),
        moved ==> taken(
            *net,
            time_ms as int,
            *old(mover),
            *old(other),
            *final(mover),
            *final(other),
            names(final(c).moves@).last(),
        ),
        !moved ==> *final(c) == *old(c) && stuck(old(c).board),
{
    let ghost s = mover.g@;
    let ghost c0 = *c;
    proof {
        lemma_in_step(*c, s, b);
        lemma_nobody_won(c.board, s);
    }
    let r: ThinkResult = mover.think(time_ms, DUEL_DEPTH, false, false, "match", net, report);
    if r.mv == ACE_NO_MOVE {
        assert(mirrors(c.board, s));
        return false;
    }
    let m: i16 = r.mv;
    let ghost mv = to_board(m);
    proof {
        reveal(AceSearch::ready);
        assert(legal_in(s, m));
        lemma_legal_playable(s, m);
        lemma_move_round_trip(mv, m);
        lemma_name_means(mv);
        lemma_playable_there(c.board, s, mv);
    }
    let name: String = ace_to_algebraic(m);
    let done: bool = c.play(name.as_str());
    assert(done);
    proof {
        lemma_step(c0, *c, s, b, name@, mv, m);
        assert(names(c.moves@).len() == names(c0.moves@).len() + 1);
        assert(names(c.moves@).drop_last() =~= names(c0.moves@));
    }
    let ghost mid = *mover;
    mover.apply_move(m);
    other.apply_move(m);
    proof {
        reveal(taken);
        assert(thinks(
            *net,
            *old(mover),
            mid,
            None,
            time_ms as int,
            DUEL_DEPTH as int,
            false,
            r,
        ));
        assert(names(c.moves@).last() == name@);
    }
    true
}

/// Plays one game from an opening: the engines move in turn until one has
/// arrived, the plies are used up and the nearer one wins, or the side to move
/// has no move. `None` if the opening cannot be played, or an engine is not a
/// search of this library.
pub fn play_one_game<N: Fn(NetInput) -> i32, R: Fn(Progress)>(
    opening: &Vec<String>,
    args: DuelArgs,
    net: &N,
    report: &R,
) -> (r: Option<GameEnd>)
    requires
        args.ok(),
        opening@.len() + args.max_ply <= MAX_GAME_LENGTH,
        tame(*net),
        listens(*report),
    ensures
        r is Some == (opens(names(opening@), opening@.len() as int, start_state()) is Some
            && seat_config(args.engine_a) is Some && seat_config(args.engine_b) is Some),
        r matches Some(e) ==> {
            &&& played_out(e.contest)
            &&& names(opening@).is_prefix_of(names(e.contest.moves@))
            &&& e.contest.a_is_one == args.a_is_one
            &&& e.contest.moves@.len() + e.contest.left == opening@.len() + args.max_ply
            &&& exists|course: Seq<Seats>| #[trigger]
                game_course(*net, args, opening@.len() as int, names(e.contest.moves@), course)
                    && Some(course[0].a.g@) == opens(
                    names(opening@),
                    opening@.len() as int,
                    start_state(),
                )
            &&& match e.contest.turn_spec() {
                Turn::Over(o) => e.outcome == o,
                _ => e.outcome is None && stuck(e.contest.board),
            }
        },
{
    let (c0, g) = match set_up(opening, args.a_is_one, args.max_ply) {
        Some(x) => x,
        None => {
            return None;
        },
    };
    let mut c: Contest = c0;
    let ghost b = choose|b: Board| in_step(c, g@, b);
    let h: AceGame = g.duplicate();
    let mut seat_a: Box<AceSearch> = match seat_search(
        args.engine_a,
        g,
        args.tt_bits,
        args.tiers,
    ) {
        Some(s) => s,
        None => {
            return None;
        },
    };
    let mut seat_b: Box<AceSearch> = match seat_search(args.engine_b, h, None, args.tiers) {
        Some(s) => s,
        None => {
            return None;
        },
    };
    let ghost w = names(opening@);
    let ghost mut course = seq![Seats { a: *seat_a, b: *seat_b }];
    proof {
        assert(w.len() == c.moves@.len());
    }
    while c.left > 0
        invariant
            args.ok(),
            w == names(opening@),
            seat_a.ready(0),
            seat_b.ready(0),
            seat_a.g@ == seat_b.g@,
            in_step(c, seat_a.g@, b),
            w.is_prefix_of(names(c.moves@)),
            game_course(*net, args, opening@.len() as int, names(c.moves@), course),
            Some(course[0].a.g@) == opens(w, opening@.len() as int, start_state()),
            course.last() == (Seats { a: *seat_a, b: *seat_b }),
            c.a_is_one == args.a_is_one,
            c.moves@.len() + c.left == opening@.len() + args.max_ply,
            opening@.len() + args.max_ply <= MAX_GAME_LENGTH,
            tame(*net),
            listens(*report),
            opens(w, opening@.len() as int, start_state()) is Some,
            seat_config(args.engine_a) is Some,
            seat_config(args.engine_b) is Some,
        decreases c.left,
    {
        let ghost before = c;
        proof {
            lemma_in_step(c, seat_a.g@, b);
        }
        let moved: bool = match c.turn() {
            Turn::Over(o) => {
                return Some(GameEnd { contest: c, outcome: o });
            },
            Turn::A => play_turn(
                &mut c,
                &mut seat_a,
                &mut seat_b,
                args.time_ms,
                net,
                report,
                Ghost(b),
            ),
            Turn::B => play_turn(
                &mut c,
                &mut seat_b,
                &mut seat_a,
                args.time_ms,
                net,
                report,
                Ghost(b),
            ),
        };
        if !moved {
            return Some(GameEnd { contest: c, outcome: None });
        }
        proof {
            let x = names(before.moves@);
            let y = names(c.moves@);
            assert(y.drop_last() == x);
            let next = Seats { a: *seat_a, b: *seat_b };
            assert(y.len() == x.len() + 1);
            lemma_course_more(*net, args, opening@.len() as int, x, y, course, next);
            course = course.push(next);
            assert(w =~= y.subrange(0, w.len() as int)) by {
                assert forall|i: int| 0 <= i < w.len() implies w[i] == y[i] by {
                    assert(w[i] == x[i]);
                    assert(y.drop_last()[i] == y[i]);
                }
            }
        }
    }
    proof {
        lemma_in_step(c, seat_a.g@, b);
    }
    match c.turn() {
        Turn::Over(o) => Some(GameEnd { contest: c, outcome: o }),
        _ => Some(GameEnd { contest: c, outcome: None }),
    }
}

/// Every ply of a game after its opening is a legal move of the side to move, both
/// searches follow it, and its name goes down in the list.
pub proof fn lemma_every_ply_is_legal<N: Fn(NetInput) -> i32>(
    net: N,
    args: DuelArgs,
    from: int,
    moves: Seq<Seq<char>>,
    course: Seq<Seats>,
    i: int,
)
    requires
        game_course(net, args, from, moves, course),
        0 <= from <= moves.len(),
        0 <= i < moves.len() - from,
    ensures
        course[i].a.g@ == course[i].b.g@,
        exists|m: i16| #[trigger]
            legal_in(course[i].a.g@, m) && course[i + 1].a.g@ == course[i].a.g@.after(m) && course[i
                + 1].b.g@ == course[i].b.g@.after(m) && moves[from + i] == move_chars(to_board(m)),
        course[i + 1].a.g@ == course[i + 1].b.g@,
    decreases i,
{
    if i > 0 {
        lemma_every_ply_is_legal(net, args, from, moves, course, i - 1);
    }
    let x = course[i];
    let y = course[i + 1];
    let name = moves[from + i];
    assert(ply_taken(net, args, course[i], course[i + 1], moves[from + i]));
    let t = args.time_ms as int;
    if i > 0 {
        assert(course[i - 1 + 1] == course[i]);
    }
    assert(x.a.g@ == x.b.g@);
    let m = if (x.a.g@.turn == 0) == args.a_is_one {
        lemma_taken_is_legal(net, t, x.a, x.b, y.a, y.b, name)
    } else {
        lemma_taken_is_legal(net, t, x.b, x.a, y.b, y.a, name)
    };
    assert(legal_in(course[i].a.g@, m));
}

/// The move of a ply.
proof fn lemma_taken_is_legal<N: Fn(NetInput) -> i32>(
    net: N,
    t: int,
    mover: AceSearch,
    other: AceSearch,
    mover_next: AceSearch,
    other_next: AceSearch,
    name: Seq<char>,
) -> (m: i16)
    requires
        taken(net, t, mover, other, mover_next, other_next, name),
    ensures
        legal_in(mover.g@, m),
        name == move_chars(to_board(m)),
        mover_next.g@ == mover.g@.after(m),
        other_next.g@ == other.g@.after(m),
{
    reveal(taken);
    let (mid, r) = choose|mid: AceSearch, r: ThinkResult|
        #![trigger thinks(net, mover, mid, None, t, DUEL_DEPTH as int, false, r)]
        {
            &&& thinks(net, mover, mid, None, t, DUEL_DEPTH as int, false, r)
            &&& legal_in(mover.g@, r.mv)
            &&& name == move_chars(to_board(r.mv))
            &&& followed(mid, r.mv, mover_next)
            &&& followed(other, r.mv, other_next)
            &&& mid.g@ == mover.g@
            &&& mid.config == mover.config
        };
    r.mv
}

/// Who thinks at a ply: engine A exactly where A has the colour to move, and then
/// the other search is left as it was but for the move.
pub proof fn lemma_the_right_engine_thinks<N: Fn(NetInput) -> i32>(
    net: N,
    args: DuelArgs,
    x: Seats,
    y: Seats,
    name: Seq<char>,
    c: Contest,
)
    requires
        ply_taken(net, args, x, y, name),
        mirrors(c.board, x.a.g@),
        c.a_is_one == args.a_is_one,
        c.left > 0,
        c.board.winner() is None,
    ensures
        c.turn_spec() == Turn::A ==> y.b.tt == x.b.tt && y.b.memory == x.b.memory,
        c.turn_spec() == Turn::B ==> y.a.tt == x.a.tt && y.a.memory == x.a.memory,
        c.turn_spec() == Turn::A || c.turn_spec() == Turn::B,
{
    let t = args.time_ms as int;
    reveal(taken);
    if (x.a.g@.turn == 0) == args.a_is_one {
        assert(taken(net, t, x.a, x.b, y.a, y.b, name));
    } else {
        assert(taken(net, t, x.b, x.a, y.b, y.a, name));
    }
}

/// A game is played out from the start by its own moves: without a move its board
/// is the one at the start, and after its last move, which could be played, the
/// one that the move leads to from the board after the others.
pub proof fn lemma_games_are_played_out(c: Contest, mv: Move)
    requires
        played_out(c),
    ensures
        c.moves@.len() == 0 ==> start_board(c.board),
        c.moves@.len() > 0 && on_grid(mv) && c.moves@.last()@ == move_chars(mv) ==> exists|
            b: Board,
            x: Board,
        |
            #![trigger start_board(b), x.playable(mv)]
            start_board(b) && walked(b, names(c.moves@), 0, c.moves@.len() - 1) == Some(x)
                && x.playable(mv) && c.board == played(x, mv),
{
    let n = c.moves@.len() as int;
    let b = choose|b: Board| #[trigger]
        start_board(b) && walked(b, names(c.moves@), 0, c.moves@.len() as int) == Some(c.board);
    if n > 0 && on_grid(mv) && c.moves@.last()@ == move_chars(mv) {
        lemma_name_means(mv);
        assert(names(c.moves@)[n - 1] == move_chars(mv));
        let x = walked(b, names(c.moves@), 0, n - 1)->0;
        assert(start_board(b) && x.playable(mv));
    }
}

} // verus!
