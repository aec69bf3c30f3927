//! What heat, orders and reductions promise.

use vstd::prelude::*;

use crate::cat::attention::CorridorAttention;
use crate::cat::depth::{kept_plies, total_spec, HeatBand, HeatShare};
use crate::cat::heat::{
    attention_of, corridor_heat_spec, fields_of, impact_added, impact_of, joint_attention,
    path_weight_spec, player_attention, RaceFields,
};
use crate::cat::moves::{denied_slots, denies, detour_heat, slot_number};
use crate::cat::order::{boosts, with_extras, OrderExtras, OrderScene};
use crate::cat::prune::{blocks_step, walled};
use crate::movegen::rules::collides;
use crate::path::graph::{
    board_steps, dist, goal_dist, goal_squares, has_path, only, pawn_sq, reach, toward,
};
use crate::position::board::{Board, Move, Player, WallOrientation};
use crate::util::grid::lemma_with_slot;

verus! {

/// Heat fades with every step that a way is over the shortest, and is gone from
/// five on.
pub proof fn lemma_heat_fades(a: int, b: int)
    requires
        0 <= a < b,
    ensures
        corridor_heat_spec(b) <= corridor_heat_spec(a),
        a <= 4 ==> corridor_heat_spec(b) < corridor_heat_spec(a),
        corridor_heat_spec(a) > 0 <==> a <= 4,
        corridor_heat_spec(0) == 200,
        0 <= corridor_heat_spec(b) <= 200,
{
}

/// Steps from the player's pawn to the square.
pub open spec fn from_pawn(b: Board, player: Player, sq: int) -> int {
    dist(board_steps(b), only(pawn_sq(b, player)), sq)
}

/// Steps from the square to the player's goal row.
pub open spec fn to_goal(b: Board, player: Player, sq: int) -> int {
    dist(board_steps(b), goal_squares(player), sq)
}

/// The square is on some way of the player from pawn to goal.
pub open spec fn on_a_way(b: Board, player: Player, sq: int) -> bool {
    &&& 0 <= sq < 81
    &&& reach(board_steps(b), only(pawn_sq(b, player)), sq)
    &&& reach(board_steps(b), goal_squares(player), sq)
}

/// The weight of a way fades from the pawn on, from all to no less than 45 percent.
proof fn lemma_weight_fades(a: int, b: int, n: int)
    requires
        0 <= a <= b,
        0 <= n <= 255,
    ensures
        45 <= path_weight_spec(b, n) <= path_weight_spec(a, n) <= 100,
        a == 0 ==> path_weight_spec(a, n) == 100,
{
    if n > 0 && n != 255 {
        let x = n - crate::cat::attention::min_int(a, n);
        let y = n - crate::cat::attention::min_int(b, n);
        assert(0 <= y <= x <= n);
        vstd::arithmetic::div_mod::lemma_div_is_ordered(55 * y, 55 * x, n);
        vstd::arithmetic::div_mod::lemma_div_is_ordered(55 * x, 55 * n, n);
        vstd::arithmetic::div_mod::lemma_div_is_ordered(0, 55 * y, n);
        assert(55 * n / n == 55) by (nonlinear_arith)
            requires
                n > 0,
        ;
        assert(0int / n == 0) by (nonlinear_arith)
            requires
                n > 0,
        ;
    }
}

/// Of two squares on ways of a player the one is no colder that is no farther
/// from the pawn and no farther off the shortest way; the pawn's own square has
/// the full heat of 200, every square of a shortest way at least 90.
pub proof fn lemma_shortest_ways_are_hottest(
    b: Board,
    player: Player,
    c: CorridorAttention,
    x: int,
    y: int,
)
    requires
        b.wf(),
        attention_of(b, player, c),
        has_path(b, player),
        on_a_way(b, player, x),
        0 <= y < 81,
    ensures
        on_a_way(b, player, y) && from_pawn(b, player, x) <= from_pawn(b, player, y) && from_pawn(
            b,
            player,
            x,
        ) + to_goal(b, player, x) <= from_pawn(b, player, y) + to_goal(b, player, y)
            ==> c.square_heat[y] <= c.square_heat[x],
        from_pawn(b, player, x) + to_goal(b, player, x) <= goal_dist(b, player) ==> 90
            <= c.square_heat[x] <= 200,
        from_pawn(b, player, x) + to_goal(b, player, x) > goal_dist(b, player) + 4
            ==> c.square_heat[x] == 0,
        !on_a_way(b, player, y) ==> c.square_heat[y] == 0,
        c.square_heat[pawn_sq(b, player)] == 200,
{
    let f = choose|f: RaceFields|
        #![trigger fields_of(f, b, player)]
        fields_of(f, b, player) && f.shortest == f.to[pawn_sq(b, player)] && player_attention(f, c);
    let p = pawn_sq(b, player);
    let st = board_steps(b);
    assert(0 <= p < 81);
    assert(f.to[p] == goal_dist(b, player));
    crate::path::graph::lemma_goal_dist_bound(b, player);
    assert(f.to[x] == to_goal(b, player, x) && f.from[x] == from_pawn(b, player, x));
    assert(f.to[y] == to_goal(b, player, y) && f.from[y] == from_pawn(b, player, y));
    assert(crate::path::graph::within(st, only(p), p, 0));
    assert(crate::path::graph::is_dist(st, only(p), p, 0));
    crate::path::graph::lemma_dist_is(st, only(p), p, 0);
    assert(f.from[p] == 0);
    assert(c.square_heat[x] == f.heat(x) && c.square_heat[y] == f.heat(y) && c.square_heat[p]
        == f.heat(p));
    let n = f.shortest;
    lemma_weight_fades(0, f.from[x] as int, n);
    lemma_weight_fades(0, f.from[y] as int, n);
    let wx = path_weight_spec(f.from[x] as int, n);
    let wy = path_weight_spec(f.from[y] as int, n);
    let hx = corridor_heat_spec(f.delta(x));
    let hy = corridor_heat_spec(f.delta(y));
    assert(f.delta(x) >= 0 && f.delta(y) >= 0);
    if f.delta(x) < f.delta(y) {
        lemma_heat_fades(f.delta(x), f.delta(y));
    }
    lemma_heat_fades(f.delta(x), f.delta(x) + 1);
    lemma_heat_fades(f.delta(y), f.delta(y) + 1);
    if f.from[x] <= f.from[y] {
        lemma_weight_fades(f.from[x] as int, f.from[y] as int, n);
    }
    if hy <= hx && wy <= wx {
        assert(0 <= hy * wy <= hx * wx) by (nonlinear_arith)
            requires
                0 <= hy <= hx,
                0 <= wy <= wx,
        ;
    }
    if hx == 200 {
        assert(90 * 100 <= hx * wx <= 200 * 100) by (nonlinear_arith)
            requires
                hx == 200,
                45 <= wx <= 100,
        ;
    }
    assert(0 * wx == 0 && 0 * wy == 0);
    assert(f.delta(p) == 0);
    assert(corridor_heat_spec(0) == 200);
}

/// The heat of both players together is no less than that of each.
pub proof fn lemma_joint_heat_covers_both(b: Board, c: CorridorAttention, player: Player, sq: int)
    requires
        joint_attention(b, c),
        0 <= sq < 81,
    ensures
        exists|x: CorridorAttention| #[trigger]
            attention_of(b, player, x) && x.square_heat[sq] <= c.square_heat[sq]
                && x.bottleneck_heat[sq] <= c.bottleneck_heat[sq],
        exists|p: Player, x: CorridorAttention| #[trigger]
            attention_of(b, p, x) && x.square_heat[sq] == c.square_heat[sq],
{
    let (x, y) = choose|x: CorridorAttention, y: CorridorAttention| #[trigger]
        crate::cat::heat::is_max(x, y, c) && attention_of(b, Player::One, x) && attention_of(
            b,
            Player::Two,
            y,
        );
    assert(c.square_heat[sq] == crate::cat::attention::max_int(
        x.square_heat[sq] as int,
        y.square_heat[sq] as int,
    ));
    assert(attention_of(b, Player::One, x) && attention_of(b, Player::Two, y));
    match player {
        Player::One => assert(attention_of(b, player, x)),
        Player::Two => assert(attention_of(b, player, y)),
    }
}

/// Impact of a square: on shortest ways of both players 400, of one at least 200,
/// and none where it is on no way of either.
pub proof fn lemma_impact_of_shared_ways(b: Board, c: CorridorAttention, sq: int)
    requires
        b.wf(),
        impact_of(b, c),
        has_path(b, Player::One),
        has_path(b, Player::Two),
        0 <= sq < 81,
    ensures
        ({
            let one = on_a_way(b, Player::One, sq) && from_pawn(b, Player::One, sq) + to_goal(
                b,
                Player::One,
                sq,
            ) <= goal_dist(b, Player::One);
            let two = on_a_way(b, Player::Two, sq) && from_pawn(b, Player::Two, sq) + to_goal(
                b,
                Player::Two,
                sq,
            ) <= goal_dist(b, Player::Two);
            &&& one && two ==> c.square_heat[sq] == 400
            &&& one || two ==> c.square_heat[sq] >= 200
            &&& !on_a_way(b, Player::One, sq) && !on_a_way(b, Player::Two, sq)
                ==> c.square_heat[sq] == 0
            &&& c.square_heat[sq] <= 400
            &&& c.square_heat[sq] == 400 ==> one && two
        }),
{
    let mid = choose|mid: Seq<u16>| #[trigger]
        impact_added(b, Player::One, crate::cat::heat::cold(), mid) && impact_added(
            b,
            Player::Two,
            mid,
            c.square_heat@,
        );
    lemma_impact_of_one(b, Player::One, crate::cat::heat::cold(), mid, sq);
    lemma_impact_of_one(b, Player::Two, mid, c.square_heat@, sq);
    assert(crate::cat::heat::cold()[sq] == 0);
    assert(c.square_heat@[sq] == c.square_heat[sq]);
}

/// What one player adds.
proof fn lemma_impact_of_one(
    b: Board,
    player: Player,
    before: Seq<u16>,
    after: Seq<u16>,
    sq: int,
)
    requires
        b.wf(),
        impact_added(b, player, before, after),
        has_path(b, player),
        0 <= sq < 81,
        before[sq] <= 200,
    ensures
        ({
            let short = on_a_way(b, player, sq) && from_pawn(b, player, sq) + to_goal(
                b,
                player,
                sq,
            ) <= goal_dist(b, player);
            &&& short ==> after[sq] == before[sq] + 200
            &&& !short ==> before[sq] <= after[sq] <= before[sq] + 77
            &&& !on_a_way(b, player, sq) ==> after[sq] == before[sq]
        }),
{
    let f = choose|f: RaceFields|
        #![trigger fields_of(f, b, player)]
        fields_of(f, b, player) && f.shortest == f.to[pawn_sq(b, player)] && forall|sq: int|
            0 <= sq < 81 ==> #[trigger] after[sq] == crate::cat::attention::sat16(
                before[sq] as int,
                crate::cat::heat::impact_spec(f, sq),
            );
    assert(f.to[pawn_sq(b, player)] == goal_dist(b, player));
    crate::path::graph::lemma_goal_dist_bound(b, player);
    assert(f.to[sq] == to_goal(b, player, sq) && f.from[sq] == from_pawn(b, player, sq));
    assert(after[sq] == crate::cat::attention::sat16(
        before[sq] as int,
        crate::cat::heat::impact_spec(f, sq),
    ));
}

/// A wall cuts exactly those open steps that are closed once it stands.
pub proof fn lemma_cut_steps_are_closed(b: Board, mv: Move, sq: int, d: int)
    requires
        mv matches Move::Wall { row, col, .. } && row < 8 && col < 8,
        board_steps(b)(sq, d),
    ensures
        blocks_step(mv, sq, toward(sq, d)) <==> !board_steps(walled(b, mv))(sq, d),
{
    crate::path::graph::lemma_wall_steps_stay(b.horizontal_walls, b.vertical_walls, sq, d);
    if let Move::Wall { row, col, orientation } = mv {
        let r = row as int;
        let c = col as int;
        let h = b.horizontal_walls;
        let v = b.vertical_walls;
        let x = sq / 9;
        let y = sq % 9;
        lemma_with_slot(h, r, c, true, x, y);
        lemma_with_slot(h, r, c, true, x, y - 1);
        lemma_with_slot(h, r, c, true, x - 1, y);
        lemma_with_slot(h, r, c, true, x - 1, y - 1);
        lemma_with_slot(v, r, c, true, x, y);
        lemma_with_slot(v, r, c, true, x - 1, y);
        lemma_with_slot(v, r, c, true, x, y - 1);
        lemma_with_slot(v, r, c, true, x - 1, y - 1);
        assert(toward(sq, d) / 9 == x + crate::path::graph::dir_row(d));
        assert(toward(sq, d) % 9 == y + crate::path::graph::dir_col(d));
    }
}

/// The heat of a wall is that of the hottest step it cuts.
pub proof fn lemma_wall_heat_is_of_cut_steps(
    cat: CorridorAttention,
    row: u8,
    col: u8,
    orientation: WallOrientation,
    a: int,
    b: int,
)
    requires
        row < 8,
        col < 8,
        0 <= a < 81,
        0 <= b < 81,
        blocks_step(Move::Wall { row, col, orientation }, a, b),
    ensures
        cat.edge_heat(a, b) <= cat.wall_heat(row as int, col as int, orientation),
        cat.edge_heat(a, b) == cat.edge_heat(b, a),
        cat.square_heat[a] <= cat.edge_heat(a, b) || cat.square_heat[b] <= cat.edge_heat(a, b),
        cat.wall_heat(row as int, col as int, orientation) <= 65_535,
{
    assert(a == a / 9 * 9 + a % 9 && b == b / 9 * 9 + b % 9);
}

/// A wall denies another exactly if the other would run into it.
pub proof fn lemma_denied_walls_collide(b: Board, mv: Move, other: Move)
    requires
        mv matches Move::Wall { row, col, .. } && row < 8 && col < 8,
        other matches Move::Wall { row, col, orientation } && row < 8 && col < 8 && !collides(
            b,
            row as int,
            col as int,
            orientation,
        ),
        mv != other,
    ensures
        other matches Move::Wall { row, col, orientation } && (denies(mv, other) <==> collides(
            walled(b, mv),
            row as int,
            col as int,
            orientation,
        )),
{
    if let Move::Wall { row: r1, col: c1, orientation: o1 } = mv {
        if let Move::Wall { row: r2, col: c2, orientation: o2 } = other {
            let r = r2 as int;
            let c = c2 as int;
            let h = b.horizontal_walls;
            let v = b.vertical_walls;
            lemma_with_slot(h, r1 as int, c1 as int, true, r, c);
            lemma_with_slot(h, r1 as int, c1 as int, true, r, c - 1);
            lemma_with_slot(h, r1 as int, c1 as int, true, r, c + 1);
            lemma_with_slot(v, r1 as int, c1 as int, true, r, c);
            lemma_with_slot(v, r1 as int, c1 as int, true, r - 1, c);
            lemma_with_slot(v, r1 as int, c1 as int, true, r + 1, c);
            let s = denied_slots(mv);
            let want = slot_number(other)->0;
            lemma_denied_members(mv, want);
        }
    }
}

/// The members of the denied slots.
proof fn lemma_denied_members(mv: Move, n: usize)
    requires
        mv matches Move::Wall { row, col, .. } && row < 8 && col < 8,
    ensures
        mv matches Move::Wall { row, col, orientation } && (denied_slots(mv).contains(n) <==> {
            let r = row as int;
            let c = col as int;
            let own = r * 8 + c;
            match orientation {
                WallOrientation::Horizontal => n == own || n == own + 64 || (c > 0 && n == own - 1)
                    || (c < 7 && n == own + 1),
                WallOrientation::Vertical => n == own + 64 || n == own || (r > 0 && n == own + 64
                    - 8) || (r < 7 && n == own + 64 + 8),
            }
        }),
{
    if let Move::Wall { row, col, orientation } = mv {
        let r = row as int;
        let c = col as int;
        let s = denied_slots(mv);
        let o2 = crate::cat::moves::other_orientation(orientation);
        let (p, q) = match orientation {
            WallOrientation::Horizontal => (
                crate::cat::moves::slot_if(r, c - 1, orientation),
                crate::cat::moves::slot_if(r, c + 1, orientation),
            ),
            WallOrientation::Vertical => (
                crate::cat::moves::slot_if(r - 1, c, orientation),
                crate::cat::moves::slot_if(r + 1, c, orientation),
            ),
        };
        let a = crate::cat::moves::slot_if(r, c, orientation);
        let b = crate::cat::moves::slot_if(r, c, o2);
        assert(s == a + b + p + q);
        assert(s[0] == a[0] && s[1] == b[0]);
        if p.len() > 0 {
            assert(s[2] == p[0]);
        }
        if q.len() > 0 {
            assert(s[2 + p.len() as int] == q[0]);
        }
        if s.contains(n) {
            let i = choose|i: int| 0 <= i < s.len() && s[i] == n;
        }
    }
}

/// What a wall's detours add up to: nothing exactly if it lengthens no way, more
/// with every step of either, and more still where both are hit.
pub proof fn lemma_detours_heat(white: int, black: int, more_w: int, more_b: int)
    requires
        0 <= white <= more_w,
        0 <= black <= more_b,
    ensures
        detour_heat(white, black) == 0 <==> white == 0 && black == 0,
        detour_heat(white, black) <= detour_heat(more_w, more_b),
        (white, black) != (more_w, more_b) ==> detour_heat(white, black) < detour_heat(
            more_w,
            more_b,
        ),
        detour_heat(white, black) == detour_heat(black, white),
{
}

/// How scores order moves that neither the table nor the book names: a wall that
/// pays for itself stands above every wall that does not, the more it gains the
/// higher; a pawn move that gains stands above the walls that do not pay, the more
/// it gains the higher.
pub proof fn lemma_order_promises<F: Fn(i32, u16, u16) -> i32>(
    o: OrderScene,
    boost: F,
    cat_max: u16,
    cold_cm: u16,
    x: Move,
    r: int,
    y: Move,
    q: int,
)
    requires
        boosts(boost),
        o.score_is(x, cat_max, cold_cm, boost, r),
        o.score_is(y, cat_max, cold_cm, boost, q),
        !o.from_table(x) && !o.from_book(x),
        !o.from_table(y) && !o.from_book(y),
        o.heat(x) >= 0,
        o.heat(y) >= 0,
    ensures
        x is Wall && y is Wall && o.pays(x) && !o.pays(y) ==> r > q,
        x is Wall && y is Wall && o.pays(x) && o.pays(y) && o.net(x) > o.net(y) && o.heat(x)
            == o.heat(y) ==> r > q,
        x is Wall && y is Wall && o.pays(x) && o.pays(y) && o.net(x) == o.net(y) && o.heat(x)
            >= o.heat(y) ==> r >= q,
        x is Pawn && y is Wall && o.gained(x) > 0 && !o.pays(y) ==> r > q,
        x is Pawn && y is Pawn && o.gained(x) > o.gained(y) > 0 ==> r > q,
        x is Wall && !o.pays(x) ==> r <= -4_000,
        x is Wall && o.pays(x) ==> r >= 12_080,
        x is Pawn ==> r >= -10,
        x is Pawn && o.gained(x) > 0 && o.our_dist == o.opp_dist ==> r >= 14_100,
{
    assert(o.gained(x) > o.gained(y) > 0 ==> o.too_slow(x) ==> o.too_slow(y));
}

/// What is known from elsewhere never lowers a score: the line's move gets at
/// least 9500, a killer at least 8500, the table's move and all others keep theirs.
pub proof fn lemma_extras_only_raise(base: int, mv: Move, tt_best: Option<Move>, x: OrderExtras)
    ensures
        ({
            let r = with_extras(base, mv, tt_best, x);
            &&& r >= base
            &&& tt_best == Some(mv) ==> r == base
            &&& tt_best != Some(mv) && x.pv_move == Some(mv) ==> r >= 9_500
            &&& tt_best != Some(mv) && (x.killers[0] == Some(mv) || x.killers[1] == Some(mv)) ==> r
                >= 8_500
            &&& x.pv_move != Some(mv) && x.killers[0] != Some(mv) && x.killers[1] != Some(mv) ==> r
                == base
            &&& r > base ==> r == 9_500 || r == 8_500
        }),
{
}

/// How warm a band is.
pub open spec fn warmth(b: HeatBand) -> int {
    match b {
        HeatBand::Frozen => 0,
        HeatBand::Cold => 1,
        HeatBand::Chilly => 2,
        HeatBand::Cool => 2,
        HeatBand::Warm => 3,
    }
}

/// Warmer moves keep no fewer plies, none keeps more than there are or fewer than
/// one, and a frozen one keeps one.
pub proof fn lemma_warmer_keeps_more(a: HeatShare, b: HeatShare, full: int)
    requires
        full >= 1,
        a.scaled >= 1,
        b.scaled >= 1,
        a.scaled <= b.scaled,
        warmth(a.band) <= warmth(b.band),
    ensures
        1 <= kept_plies(a, full) <= kept_plies(b, full) <= full,
        a.band == HeatBand::Frozen ==> kept_plies(a, full) == 1,
        kept_plies(a, full) <= a.scaled || a.band == HeatBand::Frozen,
{
}

/// A reduction leaves a ply, is no smaller for a colder move or for a wall that
/// neither cuts the way nor matters, and a pawn move's is no larger than a wall's.
pub proof fn lemma_colder_is_cut_more(
    wall: Move,
    pawn: Move,
    cat_cm: int,
    a: HeatBand,
    b: HeatBand,
    by_heat: int,
    base_r: int,
    child_full: int,
    cuts: bool,
    relevant: bool,
)
    requires
        wall is Wall,
        pawn is Pawn,
        by_heat >= 0,
        base_r >= 0,
        child_full >= 1,
        warmth(a) <= warmth(b),
        a != HeatBand::Cool || b != HeatBand::Chilly,
    ensures
        ({
            let r = total_spec(wall, cat_cm, a, by_heat, base_r, child_full, cuts, relevant);
            &&& 0 <= r <= child_full - 1
            &&& total_spec(wall, cat_cm, b, by_heat, base_r, child_full, cuts, relevant) <= r
            &&& total_spec(pawn, cat_cm, a, by_heat, base_r, child_full, cuts, relevant) <= r
            &&& total_spec(wall, cat_cm, a, by_heat, base_r, child_full, true, relevant) <= r
            &&& by_heat < child_full ==> by_heat <= total_spec(
                pawn,
                cat_cm,
                a,
                by_heat,
                base_r,
                child_full,
                cuts,
                relevant,
            )
        }),
{
}

/// From the square the step in direction `d` leads on: away from the pawn and
/// nearer to the goal, at most four steps over the shortest way.
pub open spec fn leads_on(b: Board, player: Player, sq: int, d: int) -> bool {
    let n = toward(sq, d);
    &&& board_steps(b)(sq, d)
    &&& on_a_way(b, player, n)
    &&& from_pawn(b, player, n) == from_pawn(b, player, sq) + 1
    &&& to_goal(b, player, n) < to_goal(b, player, sq)
    &&& from_pawn(b, player, n) + to_goal(b, player, n) <= goal_dist(b, player) + 4
}

/// A warm square short of the goal counts the steps that lead on from it: none
/// where none does, all four where all do. It is marked as a bottleneck exactly if
/// at most one does and it is at most one step off the shortest way. The goal row
/// and cold squares count nothing.
pub proof fn lemma_bottlenecks_lead_on_one_way(
    b: Board,
    player: Player,
    c: CorridorAttention,
    sq: int,
    d: int,
    e: int,
)
    requires
        b.wf(),
        attention_of(b, player, c),
        has_path(b, player),
        on_a_way(b, player, sq),
        0 <= d < 4,
        0 <= e < 4,
    ensures
        ({
            let n = c.route_flex[sq];
            let warm = c.square_heat[sq] > 0 && to_goal(b, player, sq) > 0;
            let off = from_pawn(b, player, sq) + to_goal(b, player, sq) - goal_dist(b, player);
            &&& n <= 4
            &&& !warm ==> n == 0 && c.bottleneck_heat[sq] == 0
            &&& warm ==> {
                &&& leads_on(b, player, sq, d) ==> n >= 1
                &&& leads_on(b, player, sq, d) && leads_on(b, player, sq, e) && d != e ==> n >= 2
                &&& n == 0 ==> !leads_on(b, player, sq, d)
                &&& n > 0 ==> exists|k: int| 0 <= k < 4 && #[trigger] leads_on(b, player, sq, k)
                &&& !leads_on(b, player, sq, d) ==> n <= 3
                &&& c.bottleneck_heat[sq] > 0 <==> off <= 1 && n <= 1
            }
        }),
{
    let f = choose|f: RaceFields|
        #![trigger fields_of(f, b, player)]
        fields_of(f, b, player) && f.shortest == f.to[pawn_sq(b, player)] && player_attention(f, c);
    let p = pawn_sq(b, player);
    assert(0 <= p < 81);
    assert(f.to[p] == goal_dist(b, player));
    crate::path::graph::lemma_goal_dist_bound(b, player);
    assert(f.to[sq] == to_goal(b, player, sq) && f.from[sq] == from_pawn(b, player, sq));
    assert(c.square_heat[sq] == f.heat(sq));
    assert forall|k: int| 0 <= k < 4 implies #[trigger] leads_on(b, player, sq, k) == f.continues(
        sq,
        k,
    ) by {
        let n = toward(sq, k);
        if board_steps(b)(sq, k) {
            crate::path::graph::lemma_wall_steps_stay(b.horizontal_walls, b.vertical_walls, sq, k);
            assert(f.to[n] == to_goal(b, player, n) && f.from[n] == from_pawn(b, player, n));
        }
    }
    assert(leads_on(b, player, sq, 0) == f.continues(sq, 0));
    assert(leads_on(b, player, sq, 1) == f.continues(sq, 1));
    assert(leads_on(b, player, sq, 2) == f.continues(sq, 2));
    assert(leads_on(b, player, sq, 3) == f.continues(sq, 3));
}

/// What is known beforehand and what presses: the table's move stands above every
/// wall that does not pay and below every one that does; the book's moves by their
/// priority around 9,000. A paying wall presses, at more than 15,000, where we are
/// behind or the opponent is within four steps of the goal. A pawn step presses as
/// much where we are not ahead, unless it leaves a race that is lost already; ahead
/// it can wait.
pub proof fn lemma_known_and_pressing_moves<F: Fn(i32, u16, u16) -> i32>(
    o: OrderScene,
    boost: F,
    cat_max: u16,
    cold_cm: u16,
    x: Move,
    r: int,
    y: Move,
    q: int,
)
    requires
        boosts(boost),
        o.score_is(x, cat_max, cold_cm, boost, r),
        o.score_is(y, cat_max, cold_cm, boost, q),
        o.tt_best != Some(y),
        !(o.book_hint matches Some(h) && h.mv == y),
        o.heat(y) >= 0,
    ensures
        o.tt_best == Some(x) && y is Wall && !o.pays(y) ==> r > q,
        o.tt_best == Some(x) && y is Wall && o.pays(y) ==> r < q,
        o.tt_best != Some(x) && (o.book_hint matches Some(h) && h.mv == x) ==> {
            let h = o.book_hint->0;
            &&& h.stm_bias == 0 ==> r - h.priority == 9_000
            &&& h.stm_bias >= 0 ==> r >= 9_000 + h.priority
            &&& h.stm_bias <= 0 ==> r <= 9_000 + h.priority
            &&& y is Wall && !o.pays(y) ==> r > q
        },
        y is Wall && o.pays(y) && (o.our_dist > o.opp_dist || o.opp_dist <= 4) ==> q >= 15_120,
        y is Wall && o.pays(y) && o.our_dist <= o.opp_dist && o.opp_dist > 4 ==> q - 80 * o.net(y)
            - o.heat(y) / 16 == 12_000,
        y is Pawn && o.gained(y) > 0 && o.our_dist < o.opp_dist ==> q - 100 * o.gained(y) == 1_000,
        y is Pawn && o.gained(y) == 1 && o.our_dist > o.opp_dist + 1 ==> q < 1_000,
        y is Pawn && o.gained(y) >= 1 && o.opp_dist <= o.our_dist <= o.opp_dist + 1 ==> q >= 14_100,
        y is Pawn && o.gained(y) >= 2 && o.opp_dist <= o.our_dist ==> q >= 14_200,
{
}

} // verus!
