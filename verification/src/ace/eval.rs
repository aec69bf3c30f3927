//! Static evaluation: exact races, and a net for everything else.

use vstd::prelude::*;

use crate::ace::bridge::{board_from_game, hands_fit, TiBridge};
use crate::ace::certify::certified_as;
use crate::ace::certmemo::{keyed_win, memo_key, race_taken, stm_wins_race, CertMemo};
use crate::ace::convert::{keys_match, mirrors};
use crate::ace::fields::DistFields;
use crate::ace::game::{grid_player, AceGame, AceState};
use crate::ace::race::state_index;
use crate::ace::racecache::{keyed_race_value, RaceCache};
use crate::movegen::legal::generate_wall_moves;
use crate::movegen::rules::{lemma_wall_moves_len, wall_moves};
use crate::path::distance::is_field;
use crate::path::graph::{goal_squares, only, wall_steps};
use crate::position::board::{Board, Move};
use crate::util::clock::Deadline;

verus! {

/// Score of an arrival at the root.
pub const MATE: i32 = 100_000;

/// Score of a race that is won.
pub const RACE_MATE: i32 = 50_000;

/// Bound of what a net may say.
pub const NET_LIMIT: i32 = 99_000;

/// Floor of a certified win.
pub const CERT_FLOOR: i32 = 2500;

/// Work of one certification in an evaluation.
pub const EVAL_CERT_BUDGET: u64 = 1200;

/// What a net sees of a position.
#[derive(Clone, Copy)]
pub struct NetInput {
    pub turn: usize,
    pub pawn: [usize; 2],
    pub wl: [i32; 2],
    pub hw: [u8; 64],
    pub vw: [u8; 64],
    /// Distances to the goal rows.
    pub goal0: [u8; 81],
    pub goal1: [u8; 81],
    /// Distances from the pawns.
    pub steps0: [u8; 81],
    pub steps1: [u8; 81],
    /// Legal wall placements, whatever the hands hold.
    pub legal_walls: usize,
    /// Cells as far from the opponent's goal row as its pawn.
    pub width_opp: usize,
}

/// How many of the first `n` entries are `x`.
pub open spec fn count_of(f: Seq<u8>, x: u8, n: int) -> int
    decreases n,
{
    if n <= 0 {
        0
    } else {
        count_of(f, x, n - 1) + (if f[n - 1] == x {
            1int
        } else {
            0int
        })
    }
}

/// `x` describes the position.
pub open spec fn describes(x: NetInput, s: AceState) -> bool {
    &&& x.turn == s.turn
    &&& x.pawn[0] == s.p0
    &&& x.pawn[1] == s.p1
    &&& x.wl[0] == s.wl0
    &&& x.wl[1] == s.wl1
    &&& forall|i: int|
        0 <= i < 64 ==> #[trigger] x.hw[i] == (if crate::util::bits::bit64(s.h, i) {
            1u8
        } else {
            0u8
        })
    &&& forall|i: int|
        0 <= i < 64 ==> #[trigger] x.vw[i] == (if crate::util::bits::bit64(s.v, i) {
            1u8
        } else {
            0u8
        })
    &&& is_field(x.goal0@, wall_steps(s.h, s.v), goal_squares(grid_player(0)))
    &&& is_field(x.goal1@, wall_steps(s.h, s.v), goal_squares(grid_player(1)))
    &&& is_field(x.steps0@, wall_steps(s.h, s.v), only(s.p0))
    &&& is_field(x.steps1@, wall_steps(s.h, s.v), only(s.p1))
    &&& exists|b: Board| #[trigger] mirrors(b, s) && x.legal_walls == wall_moves(b).len()
    &&& x.width_opp == (if s.turn == 0 {
        count_of(x.goal1@, x.goal1[s.p1], 81)
    } else {
        count_of(x.goal0@, x.goal0[s.p0], 81)
    })
}

pub(crate) fn count_equal(f: &[u8; 81], x: u8) -> (n: usize)
    ensures
        n == count_of(f@, x, 81),
{
    let mut n: usize = 0;
    let mut i: usize = 0;
    while i < 81
        invariant
            i <= 81,
            n <= i,
            n == count_of(f@, x, i as int),
        decreases 81 - i,
    {
        if f[i] == x {
            n = n + 1;
        }
        i = i + 1;
    }
    n
}

/// Number of legal wall placements of a position, whatever the hands hold.
pub fn geometric_legal_wall_count(g: &AceGame, bridge: &Option<TiBridge>) -> (n: usize)
    requires
        g.wf(),
        hands_fit(g@),
        g@.hist.len() <= i32::MAX,
        bridge matches Some(b) ==> b.board.wf() && mirrors(b.board, g@),
    ensures
        exists|b: Board| #[trigger] mirrors(b, g@) && n == wall_moves(b).len(),
        n <= 128,
{
    let board: Board = match bridge {
        Some(b) => b.board,
        None => board_from_game(g),
    };
    assert(mirrors(board, g@));
    proof {
        lemma_wall_moves_len(board);
    }
    let list: Vec<Move> = generate_wall_moves(&board);
    list.len()
}

/// What the net gets to see.
pub(crate) fn describe(g: &AceGame, fields: &DistFields, bridge: &Option<TiBridge>) -> (x: NetInput)
    requires
        g.wf(),
        fields.valid_for(g@),
        hands_fit(g@),
        g@.hist.len() <= i32::MAX,
        bridge matches Some(b) ==> b.board.wf() && mirrors(b.board, g@),
    ensures
        describes(x, g@),
{
    let goal0: [u8; 81] = *fields.field(0);
    let goal1: [u8; 81] = *fields.field(1);
    let mut steps0: [u8; 81] = [255u8; 81];
    let mut steps1: [u8; 81] = [255u8; 81];
    g.dist_from(g.pawn[0], &mut steps0);
    g.dist_from(g.pawn[1], &mut steps1);
    let width_opp: usize = if g.turn == 0 {
        count_equal(&goal1, goal1[g.pawn[1]])
    } else {
        count_equal(&goal0, goal0[g.pawn[0]])
    };
    let legal_walls: usize = geometric_legal_wall_count(g, bridge);
    NetInput {
        turn: g.turn,
        pawn: g.pawn,
        wl: g.wl,
        hw: g.hw,
        vw: g.vw,
        goal0,
        goal1,
        steps0,
        steps1,
        legal_walls,
        width_opp,
    }
}

/// Which knowledge an evaluation uses.
#[derive(Clone, Copy)]
pub struct EvalMode {
    /// Races without walls go by the classifier and the solver.
    pub cheap_cert: bool,
    /// Races and certificates count at leaves without walls only.
    pub cert_eval_leaves_only: bool,
    /// Race tables and certificates count.
    pub race_proof: bool,
}

/// The race by distances alone.
pub open spec fn naive_race(d_me: int, d_opp: int) -> int {
    if d_me <= d_opp {
        3000 + (d_opp - d_me) * 50 - d_me
    } else {
        -3000 - (d_me - d_opp) * 50 + d_opp
    }
}

/// What a race without walls in hand may be valued at.
pub open spec fn race_score_ok(mode: EvalMode, s: AceState, d_me: int, d_opp: int, r: int) -> bool {
    if mode.cheap_cert {
        exists|stm: bool| #[trigger]
            race_taken(s, stm) && r == (if stm {
                RACE_MATE - (if d_me > 1 {
                    d_me
                } else {
                    1
                })
            } else {
                -(RACE_MATE - (if d_opp > 1 {
                    d_opp
                } else {
                    1
                }))
            })
    } else {
        ||| r == naive_race(d_me, d_opp)
        ||| mode.race_proof && exists|rv: int| #[trigger]
            keyed_race_value(s, rv) && -32_768 <= rv <= 32_767 && (rv > 0 && r == RACE_MATE - rv || rv < 0 && r == -(RACE_MATE
                + rv))
    }
}

/// The score of a race by its table value, by the distances where the table
/// knows no winner.
pub open spec fn table_score(rv: int, d_me: int, d_opp: int) -> int {
    if rv > 0 {
        RACE_MATE - rv
    } else if rv < 0 {
        -(RACE_MATE + rv)
    } else {
        naive_race(d_me, d_opp)
    }
}

/// The score of a race by the tables that are there: by the value in a table
/// at hand, by the race's value where a table is promised, and by the distances
/// where none is to be had.
pub open spec fn race_by_table(
    race: RaceCache,
    deadline: Deadline,
    s: AceState,
    d_me: int,
    d_opp: int,
    r: int,
) -> bool {
    &&& race.at_hand(s) ==> exists|k: int| #[trigger]
        race.serves(k, s) && r == table_score(
            race.tables[k]->0@[state_index(s.p0, s.p1, s.turn)] as int,
            d_me,
            d_opp,
        )
    &&& race.promises(s, deadline) ==> exists|rv: int| #[trigger]
        keyed_race_value(s, rv) && r == table_score(rv, d_me, d_opp)
    &&& race.refuses(s, deadline) ==> r == naive_race(d_me, d_opp)
}

/// The exact race applies.
pub open spec fn race_applies(mode: EvalMode, s: AceState, depth: int) -> bool {
    s.wl0 == 0 && s.wl1 == 0 && (!mode.cert_eval_leaves_only || depth <= 0)
}

/// A certificate may raise the net's score `y`.
pub open spec fn cert_applies(mode: EvalMode, s: AceState, depth: int, y: int) -> bool {
    &&& mode.race_proof
    &&& if mode.cert_eval_leaves_only {
        depth <= 0 && s.wl0 == 0 && s.wl1 == 0
    } else {
        s.wl(s.turn) <= 2
    }
    &&& -700 < y < 700
    &&& s.goal_dist(s.turn) <= s.goal_dist(1 - s.turn) + 1
}

/// Nothing but a net's score, or the floor of a certified win above it.
pub open spec fn net_score_ok<N: Fn(NetInput) -> i32>(
    net: N,
    mode: EvalMode,
    s: AceState,
    depth: int,
    r: int,
) -> bool {
    exists|x: NetInput, y: i32|
        describes(x, s) && #[trigger] call_ensures(net, (x,), y) && (r == y || (r == CERT_FLOOR
            && cert_applies(mode, s, depth, y as int) && (if s.wl0 == 0 && s.wl1 == 0 {
            race_taken(s, true)
        } else {
            keyed_win(memo_key(s, s.turn))
        })))
}

/// The net's score by the certificates that are there: the floor where one is
/// held, the net's own score where none may be sought or found, and what a
/// certification says where one is made.
pub open spec fn net_by_memo<N: Fn(NetInput) -> i32>(
    net: N,
    mode: EvalMode,
    certs: CertMemo,
    s: AceState,
    depth: int,
    r: int,
) -> bool {
    let k = memo_key(s, s.turn);
    let held = certs.cache@.contains_key(k);
    exists|x: NetInput, y: i32|
        describes(x, s) && #[trigger] call_ensures(net, (x,), y) && {
            if !cert_applies(mode, s, depth, y as int) || !(certs.think_calls < certs.cap || held) {
                r == y
            } else if held && certs.cache@[k] == 1 {
                r == CERT_FLOOR
            } else if held && EVAL_CERT_BUDGET <= -certs.cache@[k] {
                r == y
            } else {
                exists|won: bool| #[trigger]
                    cert_tried(s, won) && (won ==> keyed_win(k)) && r == (if won {
                        CERT_FLOOR
                    } else {
                        y
                    })
            }
        }
}

/// A certification of the side to move, within the work of one evaluation, ends
/// so.
pub open spec fn cert_tried(s: AceState, won: bool) -> bool {
    certified_as(
        s,
        EVAL_CERT_BUDGET,
        true,
        Some(s.turn as usize),
        if won {
            Some(s.turn as usize)
        } else {
            None
        },
    )
}

/// `r` is a value of the position for the side to move.
pub open spec fn eval_ok<N: Fn(NetInput) -> i32>(
    net: N,
    mode: EvalMode,
    s: AceState,
    depth: int,
    r: int,
) -> bool {
    &&& -NET_LIMIT <= r <= NET_LIMIT
    &&& if race_applies(mode, s, depth) {
        race_score_ok(mode, s, s.goal_dist(s.turn), s.goal_dist(1 - s.turn), r)
    } else {
        net_score_ok(net, mode, s, depth, r)
    }
}

/// `r` is what the tables and certificates that are there make of the position.
pub open spec fn by_knowledge<N: Fn(NetInput) -> i32>(
    net: N,
    mode: EvalMode,
    race: RaceCache,
    certs: CertMemo,
    deadline: Deadline,
    s: AceState,
    depth: int,
    r: int,
) -> bool {
    if race_applies(mode, s, depth) {
        !mode.cheap_cert && mode.race_proof ==> race_by_table(
            race,
            deadline,
            s,
            s.goal_dist(s.turn),
            s.goal_dist(1 - s.turn),
            r,
        )
    } else {
        net_by_memo(net, mode, certs, s, depth, r)
    }
}

/// The net can be asked about any position and stays below mate scores.
pub open spec fn tame<N: Fn(NetInput) -> i32>(net: N) -> bool {
    &&& forall|x: NetInput| #[trigger] call_requires(net, (x,))
    &&& forall|x: NetInput, y: i32| #[trigger]
        call_ensures(net, (x,), y) ==> -NET_LIMIT <= y <= NET_LIMIT
}

/// The value of a race without walls in hand.
fn race_score(
    g: &mut AceGame,
    race: &mut RaceCache,
    mode: EvalMode,
    deadline: &Deadline,
    d_me: i32,
    d_opp: i32,
) -> (r: i32)
    requires
        old(g).wf(),
        keys_match(old(g)@),
        old(g)@.hist.len() < i32::MAX - 1000,
        old(race).wf(),
        0 <= d_me <= 255,
        0 <= d_opp <= 255,
    ensures
        final(g).wf(),
        final(g)@ == old(g)@,
        final(race).wf(),
        -90_000 <= r <= 90_000,
        race_score_ok(mode, old(g)@, d_me as int, d_opp as int, r as int),
        !mode.cheap_cert && mode.race_proof ==> race_by_table(
            *old(race),
            *deadline,
            old(g)@,
            d_me as int,
            d_opp as int,
            r as int,
        ),
{
    if mode.cheap_cert {
        let stm: bool = stm_wins_race(g);
        assert(race_taken(g@, stm));
        return if stm {
            RACE_MATE - if d_me > 1 {
                d_me
            } else {
                1
            }
        } else {
            -(RACE_MATE - if d_opp > 1 {
                d_opp
            } else {
                1
            })
        };
    }
    if mode.race_proof {
        match race.race_tbl(g, false, deadline) {
            Some(slot) => {
                let rv: i32 = race.race_value(slot, g) as i32;
                assert(keyed_race_value(g@, rv as int));
                if rv > 0 {
                    return RACE_MATE - rv;
                }
                if rv < 0 {
                    return -(RACE_MATE + rv);
                }
            },
            None => {},
        }
    }
    if d_me <= d_opp {
        3000 + (d_opp - d_me) * 50 - d_me
    } else {
        -3000 - (d_me - d_opp) * 50 + d_opp
    }
}

/// The value of the position for the side to move. Depth 0 and below is a leaf.
pub fn evaluate<N: Fn(NetInput) -> i32>(
    g: &mut AceGame,
    fields: &DistFields,
    race: &mut RaceCache,
    certs: &mut CertMemo,
    bridge: &Option<TiBridge>,
    mode: EvalMode,
    deadline: &Deadline,
    depth: i32,
    net: &N,
) -> (r: i32)
    requires
        old(g).wf(),
        keys_match(old(g)@),
        hands_fit(old(g)@),
        old(g)@.hist.len() < i32::MAX - 1000,
        fields.valid_for(old(g)@),
        old(race).wf(),
        old(certs).wf(),
        bridge matches Some(b) ==> b.board.wf() && mirrors(b.board, old(g)@),
        tame(*net),
    ensures
        final(g).wf(),
        final(g)@ == old(g)@,
        final(race).wf(),
        final(certs).wf(),
        -NET_LIMIT <= r <= NET_LIMIT,
        eval_ok(*net, mode, old(g)@, depth as int, r as int),
        by_knowledge(
            *net,
            mode,
            *old(race),
            *old(certs),
            *deadline,
            old(g)@,
            depth as int,
            r as int,
        ),
{
    let me: usize = g.turn;
    let d_me: i32 = fields.field(me)[g.pawn[me]] as i32;
    let d_opp: i32 = fields.field(1 - me)[g.pawn[1 - me]] as i32;
    proof {
        assert(d_me == g@.goal_dist(g@.turn));
        assert(d_opp == g@.goal_dist(1 - g@.turn));
    }
    let w_me: i32 = g.wl[me];
    let w_opp: i32 = g.wl[1 - me];
    if w_me == 0 && w_opp == 0 && (!mode.cert_eval_leaves_only || depth <= 0) {
        return race_score(g, race, mode, deadline, d_me, d_opp);
    }
    let x: NetInput = describe(g, fields, bridge);
    let y: i32 = net(x);
    assert(describes(x, g@) && call_ensures(*net, (x,), y));
    let cert_ok: bool = if mode.cert_eval_leaves_only {
        depth <= 0 && w_me == 0 && w_opp == 0
    } else {
        w_me <= 2
    };
    if mode.race_proof && cert_ok && y < CERT_FLOOR && y > -700 && y < 700 && d_me <= d_opp + 1 {
        if certs.think_calls < certs.cap || certs.knows(g, me) {
            let won: bool = certs.cert_win(g, me, EVAL_CERT_BUDGET, 0);
            let ghost tried = cert_tried(old(g)@, won);
            if won {
                return CERT_FLOOR;
            }
        }
    }
    y
}

} // verus!
