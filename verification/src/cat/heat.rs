//! Heat from breadth-first distance fields.

use vstd::prelude::*;

use crate::cat::attention::{max_int, min_int, sat16, CorridorAttention};
use crate::cat::constants::{
    BOTTLENECK_BONUS_CM, BOTTLENECK_CORRIDOR_DELTA, MAX_RELEVANT_CORRIDOR_DELTA,
};
use crate::path::bfs::BfsScratch;
use crate::path::distance::{
    fill_dist_from_sq, fill_dist_to_goal_row, is_field, lemma_field_steps,
};
use crate::path::graph::{
    board_steps, goal_squares, lemma_wall_steps_stay, only, pawn_sq, toward, StepRel,
};
use crate::path::masks::DirMasks;
use crate::position::board::{Board, Player};
use crate::util::bits::lemma_bits128;

verus! {

/// Heat of a square on a way `delta` steps over the shortest.
pub open spec fn corridor_heat_spec(delta: int) -> int {
    if delta == 0 {
        200
    } else if delta == 1 {
        77
    } else if delta == 2 {
        40
    } else if delta == 3 {
        25
    } else if delta == 4 {
        18
    } else {
        0
    }
}

/// 200 / (1 + delta * log2(delta + 2)), rounded, up to four steps over.
pub fn corridor_heat(delta: u16) -> (r: u16)
    ensures
        r == corridor_heat_spec(delta as int),
{
    if delta > MAX_RELEVANT_CORRIDOR_DELTA {
        return 0;
    }
    let table: [u16; 5] = [200, 77, 40, 25, 18];
    table[delta as usize]
}

/// Weight in percent: 100 at the pawn, fading to 45 at the goal.
pub open spec fn path_weight_spec(from: int, shortest: int) -> int {
    if shortest == 0 || shortest == 255 {
        100
    } else {
        45 + 55 * (shortest - min_int(from, shortest)) / shortest
    }
}

fn pawn_path_weight(dist_from: u8, shortest_to_goal: u8) -> (r: u16)
    ensures
        r == path_weight_spec(dist_from as int, shortest_to_goal as int),
        r <= 100,
{
    if shortest_to_goal == 0 || shortest_to_goal == 255 {
        return 100;
    }
    let from: u32 = if dist_from < shortest_to_goal {
        dist_from as u32
    } else {
        shortest_to_goal as u32
    };
    let total: u32 = shortest_to_goal as u32;
    let remaining: u32 = total - from;
    proof {
        let a = 55 * remaining;
        assert(a <= 55 * total);
        assert(a / total as int <= 55) by (nonlinear_arith)
            requires
                a <= 55 * total,
                total > 0,
                a >= 0,
        ;
        assert(a / total as int >= 0) by (nonlinear_arith)
            requires
                total > 0,
                a >= 0,
        ;
    }
    45 + (55 * remaining / total) as u16
}

/// The distance fields of a player: from the pawn and to the far row.
pub struct RaceFields {
    pub from: Seq<u8>,
    pub to: Seq<u8>,
    pub step: StepRel,
    /// Distance taken as the length of the race.
    pub shortest: int,
}

impl RaceFields {
    /// Steps that a way through the square takes over the shortest; 65535 off
    /// every way.
    pub open spec fn delta(self, sq: int) -> int {
        if self.from[sq] == 255 || self.to[sq] == 255 || self.shortest == 255 {
            65535
        } else {
            max_int(self.from[sq] + self.to[sq] - self.shortest, 0)
        }
    }

    /// The neighbour in direction `d` continues the race: one step farther from
    /// the pawn, closer to the goal, and on a way of the corridor.
    pub open spec fn continues(self, sq: int, d: int) -> bool {
        let n = toward(sq, d);
        self.step(sq, d) && self.from[n] == min_int(self.from[sq] + 1, 255) && self.to[n]
            < self.to[sq] && self.delta(n) <= 4
    }

    pub open spec fn step(self, sq: int, d: int) -> bool {
        (self.step)(sq, d)
    }

    pub open spec fn one(self, sq: int, d: int) -> int {
        if self.continues(sq, d) {
            1
        } else {
            0
        }
    }

    /// Number of neighbours that continue the race.
    pub open spec fn flex(self, sq: int) -> int {
        if self.from[sq] == 255 || self.to[sq] == 0 || self.to[sq] == 255 {
            0
        } else {
            self.one(sq, 0) + self.one(sq, 1) + self.one(sq, 3) + self.one(sq, 2)
        }
    }

    /// Corridor heat of a square.
    pub open spec fn heat(self, sq: int) -> int {
        corridor_heat_spec(self.delta(sq)) * path_weight_spec(self.from[sq] as int, self.shortest)
            / 100
    }

    /// The square narrows the race.
    pub open spec fn narrow(self, sq: int) -> bool {
        self.delta(sq) <= 1 && self.flex(sq) <= 1 && self.to[sq] > 0
    }
}

/// The fields of a player on a board.
pub open spec fn fields_of(f: RaceFields, b: Board, player: Player) -> bool {
    &&& f.step == board_steps(b)
    &&& is_field(f.from, f.step, only(pawn_sq(b, player)))
    &&& is_field(f.to, f.step, goal_squares(player))
}

/// Attention of one player alone.
pub open spec fn player_attention(f: RaceFields, c: CorridorAttention) -> bool {
    forall|sq: int|
        0 <= sq < 81 ==> {
            &&& #[trigger] c.square_heat[sq] == f.heat(sq)
            &&& c.route_flex[sq] == (if f.heat(sq) == 0 {
                0
            } else {
                f.flex(sq)
            })
            &&& c.bottleneck_heat[sq] == (if f.heat(sq) != 0 && f.narrow(sq) {
                40int
            } else {
                0int
            })
        }
}

/// `delta` for the executable fields.
fn corridor_delta(from: u8, to: u8, shortest: u8) -> (r: u16)
    ensures
        r == (if from == 255 || to == 255 || shortest == 255 {
            65535
        } else {
            max_int(from + to - shortest, 0)
        }),
{
    if from == 255 || to == 255 || shortest == 255 {
        return 65535;
    }
    let sum: u16 = from as u16 + to as u16;
    if sum >= shortest as u16 {
        sum - shortest as u16
    } else {
        0
    }
}

/// The deltas of all squares.
spec fn deltas_of(d: Seq<u16>, f: RaceFields) -> bool {
    d.len() == 81 && forall|i: int| 0 <= i < 81 ==> #[trigger] d[i] == f.delta(i)
}

fn fill_deltas(from: &[u8; 81], to: &[u8; 81], shortest: u8, Ghost(f): Ghost<RaceFields>) -> (d: [u16;
    81])
    requires
        f.from == from@,
        f.to == to@,
        f.shortest == shortest,
    ensures
        deltas_of(d@, f),
{
    let mut d: [u16; 81] = [65535u16; 81];
    let mut sq: usize = 0;
    while sq < 81
        invariant
            sq <= 81,
            f.from == from@,
            f.to == to@,
            f.shortest == shortest,
            forall|i: int| 0 <= i < sq ==> #[trigger] d[i] == f.delta(i),
        decreases 81 - sq,
    {
        d[sq] = corridor_delta(from[sq], to[sq], shortest);
        sq = sq + 1;
    }
    d
}

/// Whether the neighbour in direction `dir` continues the race.
fn continues_to(
    sq: usize,
    dir: u8,
    mask: u128,
    masks: &DirMasks,
    from: &[u8; 81],
    to: &[u8; 81],
    deltas: &[u16; 81],
    Ghost(f): Ghost<RaceFields>,
    Ghost(b): Ghost<Board>,
) -> (r: bool)
    requires
        sq < 81,
        dir < 4,
        masks.allows(board_steps(b)),
        mask == (if dir == 0 {
            masks.north
        } else if dir == 1 {
            masks.south
        } else if dir == 2 {
            masks.west
        } else {
            masks.east
        }),
        f.step == board_steps(b),
        f.from == from@,
        f.to == to@,
        deltas_of(deltas@, f),
        from@[sq as int] < 255,
    ensures
        r == f.continues(sq as int, dir as int),
{
    let bit: u128 = 1u128 << (sq as u128);
    proof {
        lemma_bits128(mask, 0, sq as int);
        assert(masks.steps()(sq as int, dir as int) == board_steps(b)(sq as int, dir as int));
        if board_steps(b)(sq as int, dir as int) {
            lemma_wall_steps_stay(b.horizontal_walls, b.vertical_walls, sq as int, dir as int);
        }
    }
    if mask & bit == 0 {
        return false;
    }
    let next: usize = if dir == 0 {
        sq - 9
    } else if dir == 1 {
        sq + 9
    } else if dir == 2 {
        sq - 1
    } else {
        sq + 1
    };
    assert(next == toward(sq as int, dir as int));
    assert(deltas@[next as int] == f.delta(next as int));
    from[next] == from[sq] + 1 && to[next] < to[sq] && deltas[next] <= MAX_RELEVANT_CORRIDOR_DELTA
}

/// Number of neighbours that continue the race.
fn reasonable_forward_continuations(
    sq: usize,
    masks: &DirMasks,
    from: &[u8; 81],
    to: &[u8; 81],
    deltas: &[u16; 81],
    Ghost(f): Ghost<RaceFields>,
    Ghost(b): Ghost<Board>,
) -> (r: u8)
    requires
        sq < 81,
        masks.allows(board_steps(b)),
        f.step == board_steps(b),
        f.from == from@,
        f.to == to@,
        deltas_of(deltas@, f),
    ensures
        r == f.flex(sq as int),
        r <= 4,
{
    if from[sq] == 255 || to[sq] == 0 || to[sq] == 255 {
        return 0;
    }
    let mut count: u8 = 0;
    if continues_to(sq, 0, masks.north, masks, from, to, deltas, Ghost(f), Ghost(b)) {
        count = count + 1;
    }
    if continues_to(sq, 1, masks.south, masks, from, to, deltas, Ghost(f), Ghost(b)) {
        count = count + 1;
    }
    if continues_to(sq, 3, masks.east, masks, from, to, deltas, Ghost(f), Ghost(b)) {
        count = count + 1;
    }
    if continues_to(sq, 2, masks.west, masks, from, to, deltas, Ghost(f), Ghost(b)) {
        count = count + 1;
    }
    count
}

/// Both distance fields of a player.
fn player_fields(board: &Board, player: Player, masks: &DirMasks, from: &mut [u8; 81], to: &mut [u8; 81])
    requires
        board.wf(),
        masks.allows(board_steps(*board)),
    ensures
        is_field(final(from)@, board_steps(*board), only(pawn_sq(*board, player))),
        is_field(final(to)@, board_steps(*board), goal_squares(player)),
{
    let (r, c) = board.pawn(player);
    fill_dist_from_sq(r * 9 + c, *masks, from);
    fill_dist_to_goal_row(player, *masks, to);
    proof {
        lemma_field_steps(from@, *masks, board_steps(*board), only(pawn_sq(*board, player)));
        lemma_field_steps(to@, *masks, board_steps(*board), goal_squares(player));
    }
}

/// Bounds of the heat of a square.
proof fn lemma_heat_bounds(f: RaceFields, sq: int, w: int)
    requires
        w == path_weight_spec(f.from[sq] as int, f.shortest),
        0 <= w <= 100,
    ensures
        0 <= f.heat(sq) <= 200,
        corridor_heat_spec(f.delta(sq)) == 0 ==> f.heat(sq) == 0,
        0 <= corridor_heat_spec(f.delta(sq)) * w <= 20000,
{
    let h = corridor_heat_spec(f.delta(sq));
    assert(0 <= h * w <= 20000) by (nonlinear_arith)
        requires
            0 <= h <= 200,
            0 <= w <= 100,
    ;
}

/// Attention of one player.
pub fn build_player_corridor_attention(board: &Board, player: Player) -> (out: CorridorAttention)
    requires
        board.wf(),
    ensures
        exists|f: RaceFields|
            #![trigger fields_of(f, *board, player)]
            fields_of(f, *board, player) && f.shortest == f.to[pawn_sq(*board, player)]
                && player_attention(f, out),
{
    let masks: DirMasks = DirMasks::from_board(board);
    let mut from: [u8; 81] = [255u8; 81];
    let mut to: [u8; 81] = [255u8; 81];
    player_fields(board, player, &masks, &mut from, &mut to);
    let (pr, pc) = board.pawn(player);
    let shortest: u8 = to[pr as usize * 9 + pc as usize];
    let ghost f = RaceFields {
        from: from@,
        to: to@,
        step: board_steps(*board),
        shortest: shortest as int,
    };
    let deltas: [u16; 81] = fill_deltas(&from, &to, shortest, Ghost(f));
    let mut heat: [u16; 81] = [0u16; 81];
    let mut flexes: [u8; 81] = [0u8; 81];
    let mut necks: [u16; 81] = [0u16; 81];
    let mut sq: usize = 0;
    while sq < 81
        invariant
            sq <= 81,
            masks.allows(board_steps(*board)),
            f.step == board_steps(*board),
            f.from == from@,
            f.to == to@,
            f.shortest == shortest,
            deltas_of(deltas@, f),
            forall|i: int| 0 <= i < sq ==> #[trigger] heat[i] == f.heat(i),
            forall|i: int|
                0 <= i < sq ==> #[trigger] flexes[i] == (if f.heat(i) == 0 {
                    0
                } else {
                    f.flex(i)
                }),
            forall|i: int|
                0 <= i < sq ==> #[trigger] necks[i] == (if f.heat(i) != 0 && f.narrow(i) {
                    40int
                } else {
                    0int
                }),
            forall|i: int| sq <= i < 81 ==> #[trigger] heat[i] == 0,
            forall|i: int| sq <= i < 81 ==> #[trigger] flexes[i] == 0,
            forall|i: int| sq <= i < 81 ==> #[trigger] necks[i] == 0,
        decreases 81 - sq,
    {
        let delta: u16 = deltas[sq];
        assert(delta == f.delta(sq as int));
        let base: u16 = corridor_heat(delta);
        let weight: u16 = pawn_path_weight(from[sq], shortest);
        proof {
            lemma_heat_bounds(f, sq as int, weight as int);
        }
        let h: u16 = (base as u32 * weight as u32 / 100) as u16;
        if h != 0 {
            let flex: u8 = reasonable_forward_continuations(
                sq,
                &masks,
                &from,
                &to,
                &deltas,
                Ghost(f),
                Ghost(*board),
            );
            heat[sq] = h;
            flexes[sq] = flex;
            if delta <= BOTTLENECK_CORRIDOR_DELTA && flex <= 1 && to[sq] > 0 {
                necks[sq] = BOTTLENECK_BONUS_CM;
            }
        }
        sq = sq + 1;
    }
    let out: CorridorAttention = CorridorAttention {
        square_heat: heat,
        route_flex: flexes,
        bottleneck_heat: necks,
    };
    proof {
        assert(fields_of(f, *board, player));
        assert forall|i: int| 0 <= i < 81 implies {
            &&& #[trigger] out.square_heat[i] == f.heat(i)
            &&& out.route_flex[i] == (if f.heat(i) == 0 {
                0
            } else {
                f.flex(i)
            })
            &&& out.bottleneck_heat[i] == (if f.heat(i) != 0 && f.narrow(i) {
                40int
            } else {
                0int
            })
        } by {
            assert(heat[i] == f.heat(i));
            assert(flexes[i] == out.route_flex[i]);
            assert(necks[i] == out.bottleneck_heat[i]);
        }
        assert(player_attention(f, out));
    }
    out
}

/// `c` is the larger of `a` and `b` in every entry.
pub open spec fn is_max(a: CorridorAttention, b: CorridorAttention, c: CorridorAttention) -> bool {
    forall|i: int|
        0 <= i < 81 ==> {
            &&& #[trigger] c.square_heat[i] == max_int(
                a.square_heat[i] as int,
                b.square_heat[i] as int,
            )
            &&& c.route_flex[i] == max_int(a.route_flex[i] as int, b.route_flex[i] as int)
            &&& c.bottleneck_heat[i] == max_int(
                a.bottleneck_heat[i] as int,
                b.bottleneck_heat[i] as int,
            )
        }
}

fn merge_corridor_max(a: &CorridorAttention, b: &CorridorAttention) -> (c: CorridorAttention)
    ensures
        is_max(*a, *b, c),
{
    let mut heat: [u16; 81] = [0u16; 81];
    let mut flexes: [u8; 81] = [0u8; 81];
    let mut necks: [u16; 81] = [0u16; 81];
    let mut i: usize = 0;
    while i < 81
        invariant
            i <= 81,
            forall|k: int|
                0 <= k < i ==> #[trigger] heat[k] == max_int(
                    a.square_heat[k] as int,
                    b.square_heat[k] as int,
                ),
            forall|k: int|
                0 <= k < i ==> #[trigger] flexes[k] == max_int(
                    a.route_flex[k] as int,
                    b.route_flex[k] as int,
                ),
            forall|k: int|
                0 <= k < i ==> #[trigger] necks[k] == max_int(
                    a.bottleneck_heat[k] as int,
                    b.bottleneck_heat[k] as int,
                ),
        decreases 81 - i,
    {
        heat[i] = if a.square_heat[i] >= b.square_heat[i] {
            a.square_heat[i]
        } else {
            b.square_heat[i]
        };
        flexes[i] = if a.route_flex[i] >= b.route_flex[i] {
            a.route_flex[i]
        } else {
            b.route_flex[i]
        };
        necks[i] = if a.bottleneck_heat[i] >= b.bottleneck_heat[i] {
            a.bottleneck_heat[i]
        } else {
            b.bottleneck_heat[i]
        };
        i = i + 1;
    }
    let c: CorridorAttention = CorridorAttention {
        square_heat: heat,
        route_flex: flexes,
        bottleneck_heat: necks,
    };
    proof {
        assert forall|k: int| 0 <= k < 81 implies {
            &&& #[trigger] c.square_heat[k] == max_int(
                a.square_heat[k] as int,
                b.square_heat[k] as int,
            )
            &&& c.route_flex[k] == max_int(a.route_flex[k] as int, b.route_flex[k] as int)
            &&& c.bottleneck_heat[k] == max_int(
                a.bottleneck_heat[k] as int,
                b.bottleneck_heat[k] as int,
            )
        } by {
            assert(heat[k] == c.square_heat[k]);
            assert(flexes[k] == c.route_flex[k]);
            assert(necks[k] == c.bottleneck_heat[k]);
        }
    }
    c
}

/// `c` is the attention of one player on a board.
pub open spec fn attention_of(b: Board, player: Player, c: CorridorAttention) -> bool {
    exists|f: RaceFields|
        #![trigger fields_of(f, b, player)]
        fields_of(f, b, player) && f.shortest == f.to[pawn_sq(b, player)] && player_attention(f, c)
}

/// `c` is the larger of both players' attention in every entry.
pub open spec fn joint_attention(b: Board, c: CorridorAttention) -> bool {
    exists|x: CorridorAttention, y: CorridorAttention| #[trigger]
        is_max(x, y, c) && attention_of(b, Player::One, x) && attention_of(b, Player::Two, y)
}

/// Attention of both players: the larger of the two in every entry.
pub fn build_corridor_attention(board: &Board) -> (c: CorridorAttention)
    requires
        board.wf(),
    ensures
        joint_attention(*board, c),
{
    let white: CorridorAttention = build_player_corridor_attention(board, Player::One);
    let black: CorridorAttention = build_player_corridor_attention(board, Player::Two);
    let c: CorridorAttention = merge_corridor_max(&white, &black);
    assert(is_max(white, black, c) && attention_of(*board, Player::One, white) && attention_of(
        *board,
        Player::Two,
        black,
    ));
    c
}

impl BfsScratch {
    /// The attention of both players, square by square the higher.
    pub fn build_corridor_attention(&self, board: &Board) -> (c: CorridorAttention)
        requires
            board.wf(),
        ensures
            joint_attention(*board, c),
    {
        build_corridor_attention(board)
    }
}

/// Number of the first `k` squares that narrow the race.
pub open spec fn narrow_count(f: RaceFields, k: int) -> int
    decreases k,
{
    if k <= 0 {
        0
    } else {
        narrow_count(f, k - 1) + (if f.narrow(k - 1) {
            1int
        } else {
            0int
        })
    }
}

/// Counts squares next to the pawn's own square that leave one way on, up to
/// eight. Ways are measured against the pawn's distance from itself, so only
/// squares within a step of pawn and goal can count.
pub fn corridor_bottleneck_count(board: &Board, player: Player) -> (r: u8)
    requires
        board.wf(),
    ensures
        exists|f: RaceFields|
            #![trigger fields_of(f, *board, player)]
            fields_of(f, *board, player) && f.shortest == f.from[pawn_sq(*board, player)] && r
                == min_int(narrow_count(f, 81), 8),
{
    let masks: DirMasks = DirMasks::from_board(board);
    let mut from: [u8; 81] = [255u8; 81];
    let mut to: [u8; 81] = [255u8; 81];
    player_fields(board, player, &masks, &mut from, &mut to);
    let (pr, pc) = board.pawn(player);
    let start: usize = pr as usize * 9 + pc as usize;
    let shortest: u8 = from[start];
    let ghost f = RaceFields {
        from: from@,
        to: to@,
        step: board_steps(*board),
        shortest: shortest as int,
    };
    proof {
        let st = board_steps(*board);
        let at = pawn_sq(*board, player);
        assert(crate::path::graph::within(st, only(at), at, 0));
        assert(crate::path::graph::is_dist(st, only(at), at, 0));
        crate::path::graph::lemma_dist_is(st, only(at), at, 0);
        assert(from@[at] == 0);
    }
    let deltas: [u16; 81] = fill_deltas(&from, &to, shortest, Ghost(f));
    let mut count: u8 = 0;
    let mut sq: usize = 0;
    while sq < 81
        invariant
            sq <= 81,
            count <= sq,
            masks.allows(board_steps(*board)),
            f.step == board_steps(*board),
            f.from == from@,
            f.to == to@,
            f.shortest == shortest,
            deltas_of(deltas@, f),
            count == narrow_count(f, sq as int),
        decreases 81 - sq,
    {
        assert(deltas@[sq as int] == f.delta(sq as int));
        let flex: u8 = reasonable_forward_continuations(
            sq,
            &masks,
            &from,
            &to,
            &deltas,
            Ghost(f),
            Ghost(*board),
        );
        if deltas[sq] <= BOTTLENECK_CORRIDOR_DELTA && to[sq] != 0 && flex <= 1 {
            count = count + 1;
        }
        sq = sq + 1;
    }
    assert(fields_of(f, *board, player));
    if count < 8 {
        count
    } else {
        8
    }
}

// --- impact ---

/// Impact of a square for one player: heat by how far a way through it is over
/// the shortest. Beyond the corridor only goal squares keep a trace.
pub open spec fn impact_spec(f: RaceFields, sq: int) -> int {
    if f.shortest == 255 || f.from[sq] == 255 || f.to[sq] == 255 {
        0
    } else if f.from[sq] + f.to[sq] <= f.shortest + 4 || f.to[sq] == 0 {
        corridor_heat_spec(min_int(max_int(f.from[sq] + f.to[sq] - f.shortest, 0), 4))
    } else {
        0
    }
}

/// `heat` is `before` plus the player's impact.
pub open spec fn impact_added(b: Board, player: Player, before: Seq<u16>, heat: Seq<u16>) -> bool {
    exists|f: RaceFields|
        #![trigger fields_of(f, b, player)]
        fields_of(f, b, player) && f.shortest == f.to[pawn_sq(b, player)] && forall|sq: int|
            0 <= sq < 81 ==> #[trigger] heat[sq] == sat16(before[sq] as int, impact_spec(f, sq))
}

fn add_player_impact_heat(board: &Board, player: Player, masks: &DirMasks, heat: &mut [u16; 81])
    requires
        board.wf(),
        masks.allows(board_steps(*board)),
    ensures
        impact_added(*board, player, old(heat)@, final(heat)@),
{
    let mut from: [u8; 81] = [255u8; 81];
    let mut to: [u8; 81] = [255u8; 81];
    player_fields(board, player, masks, &mut from, &mut to);
    let (pr, pc) = board.pawn(player);
    let shortest: u8 = to[pr as usize * 9 + pc as usize];
    let ghost f = RaceFields {
        from: from@,
        to: to@,
        step: board_steps(*board),
        shortest: shortest as int,
    };
    let mut sq: usize = 0;
    while sq < 81
        invariant
            sq <= 81,
            f.from == from@,
            f.to == to@,
            f.shortest == shortest,
            forall|i: int|
                0 <= i < sq ==> #[trigger] heat@[i] == sat16(
                    old(heat)@[i] as int,
                    impact_spec(f, i),
                ),
            forall|i: int| sq <= i < 81 ==> #[trigger] heat@[i] == old(heat)@[i],
        decreases 81 - sq,
    {
        if shortest != 255 && from[sq] != 255 && to[sq] != 255 {
            let sum: u16 = from[sq] as u16 + to[sq] as u16;
            if sum <= shortest as u16 + 4 || to[sq] == 0 {
                let over: u16 = if sum >= shortest as u16 {
                    sum - shortest as u16
                } else {
                    0
                };
                let w: u16 = corridor_heat(
                    if over < MAX_RELEVANT_CORRIDOR_DELTA {
                        over
                    } else {
                        MAX_RELEVANT_CORRIDOR_DELTA
                    },
                );
                heat[sq] = heat[sq].saturating_add(w);
            }
        }
        sq = sq + 1;
    }
    assert(fields_of(f, *board, player));
}

/// No heat anywhere.
pub open spec fn cold() -> Seq<u16> {
    Seq::new(81, |i: int| 0u16)
}

/// Both players' impact added up, nothing but square heat filled in.
pub open spec fn impact_of(b: Board, c: CorridorAttention) -> bool {
    &&& exists|mid: Seq<u16>| #[trigger]
        impact_added(b, Player::One, cold(), mid) && impact_added(
            b,
            Player::Two,
            mid,
            c.square_heat@,
        )
    &&& forall|i: int| 0 <= i < 81 ==> #[trigger] c.route_flex[i] == 0
    &&& forall|i: int| 0 <= i < 81 ==> #[trigger] c.bottleneck_heat[i] == 0
}

/// Impact heat of a board: squares near the shortest ways of both players,
/// shared ones hottest.
pub fn build_impact_heatmap(board: &Board) -> (c: CorridorAttention)
    requires
        board.wf(),
    ensures
        impact_of(*board, c),
{
    let masks: DirMasks = DirMasks::from_board(board);
    let mut heat: [u16; 81] = [0u16; 81];
    assert(heat@ =~= cold());
    add_player_impact_heat(board, Player::One, &masks, &mut heat);
    let ghost mid = heat@;
    add_player_impact_heat(board, Player::Two, &masks, &mut heat);
    let zeros: [u8; 81] = [0u8; 81];
    let zeros16: [u16; 81] = [0u16; 81];
    assert(impact_added(*board, Player::One, cold(), mid));
    CorridorAttention { square_heat: heat, route_flex: zeros, bottleneck_heat: zeros16 }
}

/// Per-square heat for display: the impact heat.
pub fn build_corridor_display_squares(board: &Board) -> (r: [u16; 81])
    requires
        board.wf(),
    ensures
        exists|c: CorridorAttention| #[trigger] impact_of(*board, c) && c.square_heat == r,
{
    let c: CorridorAttention = build_impact_heatmap(board);
    assert(impact_of(*board, c));
    c.square_heat
}

} // verus!
