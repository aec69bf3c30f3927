//! Heat of moves.

use vstd::prelude::*;

use crate::cat::attention::{max_int, min_int, CorridorAttention};
use crate::cat::constants::{CAT_HOT_CM, DIST_PENALTY};
use crate::cat::prune::{
    dist_or_penalty, gain, pawn_on_board, shape_bonus, touch_heat, wall_on_grid,
    wall_shape_attention_bonus, walled,
};
use crate::path::bfs::{shortest_distance, BfsScratch};
use crate::position::board::{Board, Move, Player, WallOrientation};
use crate::util::grid::set_wall;

verus! {

/// Number of a wall's slot: horizontal ones first.
pub open spec fn slot_number(mv: Move) -> Option<usize> {
    match mv {
        Move::Wall { row, col, orientation } => if row < 8 && col < 8 {
            Some(
                (row * 8 + col + (match orientation {
                    WallOrientation::Horizontal => 0int,
                    WallOrientation::Vertical => 64int,
                })) as usize,
            )
        } else {
            None
        },
        Move::Pawn { .. } => None,
    }
}

/// Number of a wall's slot, none for a pawn move.
pub fn wall_slot_index(mv: Move) -> (r: Option<usize>)
    ensures
        r == slot_number(mv),
{
    match mv {
        Move::Wall { row, col, orientation } => {
            if row < 8 && col < 8 {
                let base: usize = match orientation {
                    WallOrientation::Horizontal => 0,
                    WallOrientation::Vertical => 64,
                };
                Some(base + row as usize * 8 + col as usize)
            } else {
                None
            }
        },
        Move::Pawn { .. } => None,
    }
}

/// The slot of the grid, if it is one.
pub open spec fn slot_if(r: int, c: int, orientation: WallOrientation) -> Seq<usize> {
    if 0 <= r < 8 && 0 <= c < 8 {
        seq![
            (r * 8 + c + (match orientation {
                WallOrientation::Horizontal => 0int,
                WallOrientation::Vertical => 64int,
            })) as usize,
        ]
    } else {
        Seq::empty()
    }
}

pub open spec fn other_orientation(o: WallOrientation) -> WallOrientation {
    match o {
        WallOrientation::Horizontal => WallOrientation::Vertical,
        WallOrientation::Vertical => WallOrientation::Horizontal,
    }
}

/// The slots that a wall makes unusable: its own, the one that crosses it, and
/// its neighbours along its line.
pub open spec fn denied_slots(mv: Move) -> Seq<usize> {
    match mv {
        Move::Pawn { .. } => Seq::empty(),
        Move::Wall { row, col, orientation } => {
            let r = row as int;
            let c = col as int;
            let own = slot_if(r, c, orientation) + slot_if(r, c, other_orientation(orientation));
            match orientation {
                WallOrientation::Horizontal => own + slot_if(r, c - 1, orientation) + slot_if(
                    r,
                    c + 1,
                    orientation,
                ),
                WallOrientation::Vertical => own + slot_if(r - 1, c, orientation) + slot_if(
                    r + 1,
                    c,
                    orientation,
                ),
            }
        },
    }
}

fn push_wall_slot(
    row: i16,
    col: i16,
    orientation: WallOrientation,
    out: &mut [usize; 6],
    n: usize,
    Ghost(done): Ghost<Seq<usize>>,
) -> (k: usize)
    requires
        n <= 5,
        done.len() == n,
        forall|i: int| 0 <= i < n ==> #[trigger] old(out)[i] == done[i],
    ensures
        k == (done + slot_if(row as int, col as int, orientation)).len(),
        k <= n + 1,
        forall|i: int|
            0 <= i < k ==> #[trigger] final(out)[i] == (done + slot_if(
                row as int,
                col as int,
                orientation,
            ))[i],
        forall|i: int| k <= i < 6 ==> #[trigger] final(out)[i] == old(out)[i],
{
    if row < 0 || row > 7 || col < 0 || col > 7 {
        assert(done + slot_if(row as int, col as int, orientation) =~= done);
        return n;
    }
    let base: usize = match orientation {
        WallOrientation::Horizontal => 0,
        WallOrientation::Vertical => 64,
    };
    out[n] = base + row as usize * 8 + col as usize;
    n + 1
}

/// Writes the slots that a wall makes unusable; their number.
pub fn locally_invalidated_wall_slots(mv: Move, out: &mut [usize; 6]) -> (n: usize)
    ensures
        n == denied_slots(mv).len(),
        n <= 4,
        forall|i: int| 0 <= i < n ==> #[trigger] final(out)[i] == denied_slots(mv)[i],
        forall|i: int| n <= i < 6 ==> #[trigger] final(out)[i] == old(out)[i],
{
    match mv {
        Move::Pawn { .. } => 0,
        Move::Wall { row, col, orientation } => {
            let r: i16 = row as i16;
            let c: i16 = col as i16;
            let other: WallOrientation = match orientation {
                WallOrientation::Horizontal => WallOrientation::Vertical,
                WallOrientation::Vertical => WallOrientation::Horizontal,
            };
            let ghost s0: Seq<usize> = Seq::empty();
            let n1: usize = push_wall_slot(r, c, orientation, out, 0, Ghost(s0));
            let ghost s1 = s0 + slot_if(r as int, c as int, orientation);
            let n2: usize = push_wall_slot(r, c, other, out, n1, Ghost(s1));
            let ghost s2 = s1 + slot_if(r as int, c as int, other);
            let (ar, ac, br, bc): (i16, i16, i16, i16) = match orientation {
                WallOrientation::Horizontal => (r, c - 1, r, c + 1),
                WallOrientation::Vertical => (r - 1, c, r + 1, c),
            };
            let n3: usize = push_wall_slot(ar, ac, orientation, out, n2, Ghost(s2));
            let ghost s3 = s2 + slot_if(ar as int, ac as int, orientation);
            let n4: usize = push_wall_slot(br, bc, orientation, out, n3, Ghost(s3));
            assert(s3 + slot_if(br as int, bc as int, orientation) =~= denied_slots(mv));
            n4
        },
    }
}

/// What denying a neighbour of some heat is worth: half as much again where
/// the neighbour is hot.
pub open spec fn boosted(heat: int) -> int {
    if heat >= CAT_HOT_CM {
        min_int(heat * 3, i32::MAX as int) / 2
    } else {
        0
    }
}

/// Candidate `i` is another wall whose slot the move makes unusable.
pub open spec fn denies(mv: Move, other: Move) -> bool {
    &&& slot_number(mv) is Some
    &&& slot_number(other) is Some
    &&& slot_number(other) != slot_number(mv)
    &&& denied_slots(mv).contains(slot_number(other)->0)
}

/// The best of what the first `k` candidates are worth denying.
pub open spec fn denial_heat(mv: Move, candidates: Seq<Move>, heats: Seq<i32>, k: int) -> int
    decreases k,
{
    if k <= 0 {
        0
    } else {
        let rest = denial_heat(mv, candidates, heats, k - 1);
        if denies(mv, candidates[k - 1]) {
            max_int(rest, boosted(heats[k - 1] as int))
        } else {
            rest
        }
    }
}

/// The candidates that count.
pub open spec fn counted(n: int, a: int, b: int) -> int {
    min_int(min_int(n, a), b)
}

fn among(list: &[usize; 6], n: usize, x: usize) -> (r: bool)
    requires
        n <= 6,
    ensures
        r == exists|i: int| 0 <= i < n && #[trigger] list[i] == x,
{
    let mut i: usize = 0;
    while i < n
        invariant
            i <= n <= 6,
            forall|k: int| 0 <= k < i ==> #[trigger] list[k] != x,
        decreases n - i,
    {
        if list[i] == x {
            return true;
        }
        i = i + 1;
    }
    false
}

/// Heat of a wall for taking a hot neighbour's slot away.
pub fn legal_neighbor_denial_heat(mv: Move, candidates: &[Move], direct_heats: &[i32], n: usize) -> (r: i32)
    ensures
        r == denial_heat(
            mv,
            candidates@,
            direct_heats@,
            counted(n as int, candidates@.len() as int, direct_heats@.len() as int),
        ),
        r >= 0,
{
    let own: usize = match wall_slot_index(mv) {
        Some(s) => s,
        None => {
            proof {
                lemma_no_denial(
                    mv,
                    candidates@,
                    direct_heats@,
                    counted(n as int, candidates@.len() as int, direct_heats@.len() as int),
                );
            }
            return 0;
        },
    };
    let mut local: [usize; 6] = [128usize; 6];
    let local_n: usize = locally_invalidated_wall_slots(mv, &mut local);
    let mut m: usize = n;
    if candidates.len() < m {
        m = candidates.len();
    }
    if direct_heats.len() < m {
        m = direct_heats.len();
    }
    let mut best: i32 = 0;
    let mut i: usize = 0;
    while i < m
        invariant
            i <= m,
            m <= candidates@.len(),
            m <= direct_heats@.len(),
            slot_number(mv) == Some(own),
            local_n == denied_slots(mv).len(),
            local_n <= 4,
            forall|k: int| 0 <= k < local_n ==> #[trigger] local[k] == denied_slots(mv)[k],
            best == denial_heat(mv, candidates@, direct_heats@, i as int),
            best >= 0,
        decreases m - i,
    {
        match wall_slot_index(candidates[i]) {
            Some(s) => {
                let taken: bool = among(&local, local_n, s);
                proof {
                    if taken {
                        let k = choose|k: int| 0 <= k < local_n && #[trigger] local[k] == s;
                        assert(denied_slots(mv)[k] == s);
                    }
                    if denied_slots(mv).contains(s) {
                        let k = choose|k: int|
                            0 <= k < denied_slots(mv).len() && denied_slots(mv)[k] == s;
                        assert(local[k] == s);
                    }
                }
                if s != own && taken {
                    let heat: i32 = direct_heats[i];
                    if heat >= CAT_HOT_CM as i32 {
                        let tripled: i32 = if heat <= 715_827_882 {
                            heat * 3
                        } else {
                            i32::MAX
                        };
                        let b: i32 = tripled / 2;
                        if b > best {
                            best = b;
                        }
                    }
                }
            },
            None => {},
        }
        i = i + 1;
    }
    best
}

proof fn lemma_no_denial(mv: Move, candidates: Seq<Move>, heats: Seq<i32>, k: int)
    requires
        slot_number(mv) is None,
    ensures
        denial_heat(mv, candidates, heats, k) == 0,
    decreases k,
{
    if k > 0 {
        lemma_no_denial(mv, candidates, heats, k - 1);
    }
}

/// A move that the heat is defined for.
pub open spec fn move_on_board(mv: Move) -> bool {
    wall_on_grid(mv) && pawn_on_board(mv)
}

/// Heat of a move's own place.
pub open spec fn place_heat(mv: Move, cat: CorridorAttention) -> int {
    match mv {
        Move::Pawn { row, col } => cat.square_heat[row * 9 + col] as int,
        Move::Wall { row, col, orientation } => cat.wall_heat(row as int, col as int, orientation),
    }
}

fn cat_score_for_move(mv: Move, cat: &CorridorAttention) -> (r: i32)
    requires
        move_on_board(mv),
    ensures
        r == place_heat(mv, *cat),
        0 <= r <= 65535,
{
    match mv {
        Move::Pawn { row, col } => cat.square_heat(row, col) as i32,
        Move::Wall { row, col, orientation } => cat.wall_edge_heat(row, col, orientation) as i32,
    }
}

/// Heat of a move: of its place, and what its shape adds.
pub open spec fn move_heat(b: Board, mv: Move, cat: CorridorAttention) -> int {
    place_heat(mv, cat) + shape_bonus(b, mv, cat)
}

/// Heat of a move: of its place, and what its shape adds.
pub fn move_corridor_attention(board: &Board, mv: Move, cat: &CorridorAttention) -> (r: i32)
    requires
        move_on_board(mv),
    ensures
        r == move_heat(*board, mv, *cat),
        0 <= r <= 65575,
{
    cat_score_for_move(mv, cat) + wall_shape_attention_bonus(board, mv, cat)
}

/// Heat of the part of the board that a move acts on: the square it goes to,
/// or the hottest square that the wall touches.
pub open spec fn impact_heat(mv: Move, cat: CorridorAttention) -> int {
    match mv {
        Move::Pawn { row, col } => cat.square_heat[row * 9 + col] as int,
        Move::Wall { row, col, .. } => touch_heat(cat, row as int, col as int),
    }
}

/// Heat of the part of the board that a move acts on.
pub fn move_impact_heat(mv: Move, cat: &CorridorAttention) -> (r: i32)
    requires
        move_on_board(mv),
    ensures
        r == impact_heat(mv, *cat),
        0 <= r <= 65535,
{
    match mv {
        Move::Pawn { row, col } => cat.square_heat(row, col) as i32,
        Move::Wall { row, col, .. } => {
            let mut best: u16 = cat.square_heat(row, col);
            let b: u16 = cat.square_heat(row + 1, col);
            let c: u16 = cat.square_heat(row, col + 1);
            let d: u16 = cat.square_heat(row + 1, col + 1);
            if b > best {
                best = b;
            }
            if c > best {
                best = c;
            }
            if d > best {
                best = d;
            }
            best as i32
        },
    }
}

/// Heat of a wall from what it adds to both ways: 120 for each step, 50 for
/// each of the longer detour, 40 if both are hit.
pub open spec fn detour_heat(white: int, black: int) -> int {
    if white + black == 0 {
        0
    } else {
        (white + black) * 120 + max_int(white, black) * 50 + (if white > 0 && black > 0 {
            40int
        } else {
            0int
        })
    }
}

/// The detours that a wall forces.
pub open spec fn detour(b: Board, mv: Move, player: Player, before: int) -> int {
    gain(dist_or_penalty(walled(b, mv), player), before)
}

/// Heat of a wall from the detours that it forces, 0 for a pawn move.
pub fn wall_path_impact_attention(
    board: &Board,
    mv: Move,
    white_dist: u8,
    black_dist: u8,
    bfs: &BfsScratch,
) -> (r: i32)
    requires
        board.wf(),
        wall_on_grid(mv),
    ensures
        r == (if mv is Pawn {
            0
        } else {
            detour_heat(
                detour(*board, mv, Player::One, white_dist as int),
                detour(*board, mv, Player::Two, black_dist as int),
            )
        }),
        0 <= r <= 100_000,
{
    match mv {
        Move::Pawn { .. } => 0,
        Move::Wall { row, col, orientation } => {
            let mut after: Board = *board;
            set_wall(&mut after, row, col, orientation, true);
            let white_after: u8 = match shortest_distance(&after, Player::One) {
                Some(d) => d,
                None => DIST_PENALTY,
            };
            let black_after: u8 = match shortest_distance(&after, Player::Two) {
                Some(d) => d,
                None => DIST_PENALTY,
            };
            let white: i32 = white_after.saturating_sub(white_dist) as i32;
            let black: i32 = black_after.saturating_sub(black_dist) as i32;
            let total: i32 = white + black;
            if total == 0 {
                return 0;
            }
            let strongest: i32 = if white >= black {
                white
            } else {
                black
            };
            let shared: i32 = if white > 0 && black > 0 {
                40
            } else {
                0
            };
            total * 120 + strongest * 50 + shared
        },
    }
}

/// Heat of a move, or of the detours that it forces if that is hotter.
pub fn move_corridor_attention_with_path(
    board: &Board,
    mv: Move,
    cat: &CorridorAttention,
    white_dist: u8,
    black_dist: u8,
    bfs: &BfsScratch,
) -> (r: i32)
    requires
        board.wf(),
        move_on_board(mv),
    ensures
        r == max_int(
            move_heat(*board, mv, *cat),
            if mv is Pawn {
                0
            } else {
                detour_heat(
                    detour(*board, mv, Player::One, white_dist as int),
                    detour(*board, mv, Player::Two, black_dist as int),
                )
            },
        ),
{
    let a: i32 = move_corridor_attention(board, mv, cat);
    let b: i32 = wall_path_impact_attention(board, mv, white_dist, black_dist, bfs);
    if a >= b {
        a
    } else {
        b
    }
}

/// Heat of a move, or of the walls that it denies if that is hotter.
pub fn move_corridor_attention_with_denial(
    board: &Board,
    mv: Move,
    cat: &CorridorAttention,
    candidates: &[Move],
    direct_heats: &[i32],
    n: usize,
) -> (r: i32)
    requires
        move_on_board(mv),
    ensures
        r == (if mv is Pawn {
            move_heat(*board, mv, *cat)
        } else {
            max_int(
                move_heat(*board, mv, *cat),
                denial_heat(
                    mv,
                    candidates@,
                    direct_heats@,
                    counted(n as int, candidates@.len() as int, direct_heats@.len() as int),
                ),
            )
        }),
{
    let direct: i32 = move_corridor_attention(board, mv, cat);
    match mv {
        Move::Pawn { .. } => direct,
        Move::Wall { .. } => {
            let d: i32 = legal_neighbor_denial_heat(mv, candidates, direct_heats, n);
            if direct >= d {
                direct
            } else {
                d
            }
        },
    }
}

// --- references ---

/// Hottest move of a position: of all, of the walls, of the pawn moves.
#[derive(Debug, Clone, Copy)]
pub struct CatHeatRefs {
    pub all: u16,
    pub walls: u16,
    pub pawns: u16,
}

impl Default for CatHeatRefs {
    fn default() -> (r: Self)
        ensures
            r.all == 0,
            r.walls == 0,
            r.pawns == 0,
    {
        CatHeatRefs { all: 0, walls: 0, pawns: 0 }
    }
}

/// Low 16 bits of a heat; heats below 0 count as 0.
pub open spec fn as_heat(x: int) -> int {
    max_int(x, 0) % 65536
}

/// The hottest of the first `k` moves, by kind: 0 all, 1 walls, 2 pawns.
pub open spec fn hottest(moves: Seq<Move>, heats: Seq<int>, kind: int, k: int) -> int
    decreases k,
{
    if k <= 0 {
        0
    } else {
        let rest = hottest(moves, heats, kind, k - 1);
        if kind == 0 || (kind == 1 && moves[k - 1] is Wall) || (kind == 2 && moves[k - 1] is Pawn) {
            max_int(rest, as_heat(heats[k - 1]))
        } else {
            rest
        }
    }
}

/// The references of the first `k` moves.
pub open spec fn refs_of(r: CatHeatRefs, moves: Seq<Move>, heats: Seq<int>, k: int) -> bool {
    &&& r.all == hottest(moves, heats, 0, k)
    &&& r.walls == hottest(moves, heats, 1, k)
    &&& r.pawns == hottest(moves, heats, 2, k)
}

fn take_heat(refs: CatHeatRefs, mv: Move, heat: i32, Ghost(moves): Ghost<Seq<Move>>, Ghost(heats): Ghost<Seq<int>>, Ghost(k): Ghost<int>) -> (r: CatHeatRefs)
    requires
        k >= 0,
        moves[k] == mv,
        heats[k] == heat,
        refs_of(refs, moves, heats, k),
    ensures
        refs_of(r, moves, heats, k + 1),
{
    let cm: u16 = if heat < 0 {
        0
    } else {
        (heat % 65536) as u16
    };
    let mut r: CatHeatRefs = refs;
    if cm > r.all {
        r.all = cm;
    }
    match mv {
        Move::Wall { .. } => {
            if cm > r.walls {
                r.walls = cm;
            }
        },
        Move::Pawn { .. } => {
            if cm > r.pawns {
                r.pawns = cm;
            }
        },
    }
    r
}

/// Hottest moves of a position.
pub fn cat_heat_refs(buf: &[Move], n: usize, board: &Board, cat: &CorridorAttention) -> (r: CatHeatRefs)
    requires
        n <= buf@.len(),
        forall|i: int| 0 <= i < n ==> move_on_board(#[trigger] buf@[i]),
    ensures
        refs_of(
            r,
            buf@,
            Seq::new(n as nat, |i: int| move_heat(*board, buf@[i], *cat)),
            n as int,
        ),
{
    let ghost heats = Seq::new(n as nat, |i: int| move_heat(*board, buf@[i], *cat));
    let mut refs: CatHeatRefs = CatHeatRefs { all: 0, walls: 0, pawns: 0 };
    let mut i: usize = 0;
    while i < n
        invariant
            i <= n <= buf@.len(),
            forall|k: int| 0 <= k < n ==> move_on_board(#[trigger] buf@[k]),
            heats == Seq::new(n as nat, |i: int| move_heat(*board, buf@[i], *cat)),
            refs_of(refs, buf@, heats, i as int),
        decreases n - i,
    {
        let h: i32 = move_corridor_attention(board, buf[i], cat);
        refs = take_heat(refs, buf[i], h, Ghost(buf@), Ghost(heats), Ghost(i as int));
        i = i + 1;
    }
    refs
}

/// The reference of a move: walls among walls, pawn moves among all.
pub open spec fn ref_max(mv: Move, refs: CatHeatRefs) -> u16 {
    match mv {
        Move::Wall { .. } => refs.walls,
        Move::Pawn { .. } => refs.all,
    }
}

/// The reference of a move: walls among walls, pawn moves among all.
#[inline]
pub fn cat_heat_ref_max(mv: Move, refs: CatHeatRefs) -> (r: u16)
    ensures
        r == ref_max(mv, refs),
{
    match mv {
        Move::Wall { .. } => refs.walls,
        Move::Pawn { .. } => refs.all,
    }
}

/// Hottest moves by given heats.
pub fn cat_heat_refs_from_scores(buf: &[Move], n: usize, cat_heats: &[i32]) -> (r: CatHeatRefs)
    ensures
        ({
            let m = counted(n as int, buf@.len() as int, cat_heats@.len() as int);
            refs_of(r, buf@, Seq::new(m as nat, |i: int| cat_heats@[i] as int), m)
        }),
{
    let mut m: usize = n;
    if buf.len() < m {
        m = buf.len();
    }
    if cat_heats.len() < m {
        m = cat_heats.len();
    }
    let ghost heats = Seq::new(m as nat, |i: int| cat_heats@[i] as int);
    let mut refs: CatHeatRefs = CatHeatRefs { all: 0, walls: 0, pawns: 0 };
    let mut i: usize = 0;
    while i < m
        invariant
            i <= m,
            m <= buf@.len(),
            m <= cat_heats@.len(),
            heats == Seq::new(m as nat, |i: int| cat_heats@[i] as int),
            refs_of(refs, buf@, heats, i as int),
        decreases m - i,
    {
        refs = take_heat(refs, buf[i], cat_heats[i], Ghost(buf@), Ghost(heats), Ghost(i as int));
        i = i + 1;
    }
    refs
}

} // verus!
