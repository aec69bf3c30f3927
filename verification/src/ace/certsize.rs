//! How large a certificate has to be early in a game: the opponent's walls are
//! so many that no small search can answer them all.

use vstd::prelude::*;

use crate::ace::certify::{
    cert_nodes, legal_in, lemma_after_natural, lemma_legal_playable, lemma_nodes_of,
    lemma_parts_natural, lemma_some_grid, move_nodes, nodes_after, nodes_below, own_nodes,
    proof_nodes, slot_nodes, wall_nodes,
};
use crate::ace::convert::mirrors;
use crate::ace::game::{
    lemma_ace_unmake_restores, lemma_pawn_cells, move_cell, move_orientation, pawn_cells_of,
    wall_slot, AceState,
};
use crate::ace::openrace::{lemma_rows_to_go, to_go};
use crate::movegen::rules::{
    anchored, collides, lemma_pawn_moves_exact, loose, pawn_legal_dir, pawn_moves, shifted, unit,
    Sq,
};
use crate::arena::start_board;
use crate::position::board::Board;
use crate::util::bits::{bit64, lemma_bits64, lemma_ext64};
use crate::util::grid::{lemma_with_slot, slot};

verus! {

/// Every wall lies in slots of row `x`.
spec fn walls_in_row(s: AceState, x: int) -> bool {
    forall|r: int, c: int|
        #![trigger slot(s.h, r, c)]
        #![trigger slot(s.v, r, c)]
        slot(s.h, r, c) || slot(s.v, r, c) ==> r == x
}

/// Slot row `r` is out of reach of walls in row `x`.
spec fn far_off(r: int, x: int) -> bool {
    r >= x + 3 || r <= x - 3
}

/// A position that can go on for a few plies.
spec fn goes_on(s: AceState) -> bool {
    &&& s.wf()
    &&& s.winner_spec() == -1
    &&& s.hist.len() < i32::MAX
    &&& s.wl0 <= i32::MAX
    &&& s.wl1 <= i32::MAX
}

/// A wall far from all others is legal.
proof fn lemma_far_wall(s: AceState, x: int, i: int, m: i16)
    requires
        s.wf(),
        walls_in_row(s, x),
        s.wl(s.turn) > 0,
        0 <= i < 64,
        far_off(i / 8, x),
        m == 100 + i || m == 200 + i,
    ensures
        legal_in(s, m),
{
    reveal(AceState::wall_legal_spec);
    lemma_some_grid(s);
    let b = s.grid_board();
    assert(s.grid_is(b));
    let o = move_orientation(m);
    assert(wall_slot(m) == i);
    let r = i / 8;
    let c = i % 8;
    assert forall|q: int, k: int|
        #![trigger slot(s.h, q, k)]
        #![trigger slot(s.v, q, k)]
        r - 2 <= q <= r + 2 implies !slot(s.h, q, k) && !slot(s.v, q, k) by {}
    assert(!collides(b, r, c, o));
    assert(!anchored(b, r, c, o));
    assert(loose(b, i, o));
}

/// The position after a legal wall.
proof fn lemma_after_wall(s: AceState, i: int, m: i16)
    requires
        goes_on(s),
        legal_in(s, m),
        0 <= i < 64,
        m == 100 + i || m == 200 + i,
    ensures
        s.after(m).wf(),
        s.after(m).winner_spec() == -1,
        s.after(m).turn == 1 - s.turn,
        s.after(m).p0 == s.p0,
        s.after(m).p1 == s.p1,
        s.after(m).hist.len() == s.hist.len() + 1,
        s.after(m).wl(1 - s.turn) == s.wl(1 - s.turn),
        s.after(m).wl(s.turn) == s.wl(s.turn) - 1,
        (forall|r: int, c: int|
            #![trigger slot(s.h, r, c)]
            #![trigger slot(s.v, r, c)]
            !slot(s.h, r, c) && !slot(s.v, r, c)) ==> walls_in_row(s.after(m), i / 8),
{
    lemma_legal_playable(s, m);
    lemma_ace_unmake_restores(s, m);
    let t = s.after(m);
    assert(wall_slot(m) == i);
    if forall|r: int, c: int|
        #![trigger slot(s.h, r, c)]
        #![trigger slot(s.v, r, c)]
        !slot(s.h, r, c) && !slot(s.v, r, c) {
        assert forall|r: int, c: int|
            #![trigger slot(t.h, r, c)]
            #![trigger slot(t.v, r, c)]
            slot(t.h, r, c) || slot(t.v, r, c) implies r == i / 8 by {
            if 0 <= r < 8 && 0 <= c < 8 {
                lemma_with_slot(s.h, i / 8, i % 8, true, r, c);
                lemma_with_slot(s.v, i / 8, i % 8, true, r, c);
                assert(!slot(s.h, r, c) && !slot(s.v, r, c));
            }
        }
    }
}

/// No pawn moves more than two rows.
proof fn lemma_short_moves(h: u64, v: u64, from: int, opp: int, i: int)
    requires
        0 <= from < 81,
        0 <= i < pawn_cells_of(h, v, from, opp).len(),
    ensures
        from / 9 - 2 <= pawn_cells_of(h, v, from, opp)[i] as int / 9 <= from / 9 + 2,
{
    lemma_pawn_cells(h, v, from, opp);
    let f: Sq = (from / 9, from % 9);
    let o: Sq = (opp / 9, opp % 9);
    let mv = pawn_moves(h, v, f, o)[i];
    assert(pawn_cells_of(h, v, from, opp)[i] == move_cell(mv)) by {
        reveal(pawn_cells_of);
    }
    assert(pawn_moves(h, v, f, o).contains(mv)) by {
        reveal(pawn_cells_of);
    }
    lemma_pawn_moves_exact(h, v, f, o, mv);
    let d = choose|d: Sq| #[trigger] unit(d) && pawn_legal_dir(h, v, f, o, d, mv);
    let n = shifted(f, d);
}

/// Without walls, if nothing is set.
spec fn bare(s: AceState) -> bool {
    forall|r: int, c: int|
        #![trigger slot(s.h, r, c)]
        #![trigger slot(s.v, r, c)]
        !slot(s.h, r, c) && !slot(s.v, r, c)
}

/// Where the side to be certified is to move and nobody has arrived, a proof
/// takes a node.
proof fn lemma_own_turn_node(s: AceState, w: int, n: nat)
    requires
        s.winner_spec() == -1,
        s.turn == w,
        n >= 1,
    ensures
        proof_nodes(s, w, n, false) >= 1,
{
    lemma_nodes_of(s, w, n, false);
    reveal(nodes_below);
    lemma_after_natural(s, w, n, false);
    lemma_parts_natural(s, nodes_after(s, w, n, false), false, 0, s.pawn_cells().len());
}

/// Slots that take two nodes each.
proof fn lemma_row_of_walls(s: AceState, f: spec_fn(i16) -> int, from: nat, k: nat)
    requires
        forall|i: int| from <= i < from + k ==> #[trigger] slot_nodes(s, f, i) >= 2,
    ensures
        wall_nodes(s, f, from + k) >= wall_nodes(s, f, from) + 2 * k,
    decreases k,
{
    if k > 0 {
        lemma_row_of_walls(s, f, from, (k - 1) as nat);
        assert(slot_nodes(s, f, from + k - 1) >= 2);
    }
}

/// The nodes of the first rows grow with each row that is far off.
proof fn lemma_rows_of_walls(s: AceState, f: spec_fn(i16) -> int, x: int, r: nat)
    requires
        r < 8,
        forall|m: i16| #[trigger] f(m) >= 0,
        forall|i: int| 0 <= i < 64 && far_off(i / 8, x) ==> #[trigger] slot_nodes(s, f, i) >= 2,
    ensures
        wall_nodes(s, f, 8 * r + 8) >= wall_nodes(s, f, 8 * r) + if far_off(r as int, x) {
            16int
        } else {
            0
        },
{
    if far_off(r as int, x) {
        lemma_row_of_walls(s, f, 8 * r, 8);
    } else {
        lemma_parts_natural(s, f, false, 8 * r, 8 * r + 8);
    }
}

/// With walls in one row only, the replies by walls alone take 48 nodes.
proof fn lemma_second_reply(s: AceState, w: int, n: nat, x: int)
    requires
        goes_on(s),
        0 <= w < 2,
        s.turn == 1 - w,
        s.wl(s.turn) > 0,
        0 <= x < 8,
        walls_in_row(s, x),
        n >= 2,
    ensures
        proof_nodes(s, w, n, false) >= 49,
{
    let f = nodes_after(s, w, n, false);
    lemma_nodes_of(s, w, n, false);
    reveal(nodes_below);
    lemma_after_natural(s, w, n, false);
    lemma_parts_natural(s, f, false, 0, s.pawn_cells().len());
    assert forall|i: int| 0 <= i < 64 && far_off(i / 8, x) implies #[trigger] slot_nodes(s, f, i)
        >= 2 by {
        let hm = (100 + i) as i16;
        let vm = (200 + i) as i16;
        lemma_far_wall(s, x, i, hm);
        lemma_far_wall(s, x, i, vm);
        lemma_after_wall(s, i, hm);
        lemma_after_wall(s, i, vm);
        lemma_own_turn_node(s.after(hm), w, (n - 1) as nat);
        lemma_own_turn_node(s.after(vm), w, (n - 1) as nat);
        reveal(move_nodes);
        assert(f(hm) >= 1 && f(vm) >= 1);
    }
    lemma_rows_of_walls(s, f, x, 0);
    lemma_rows_of_walls(s, f, x, 1);
    lemma_rows_of_walls(s, f, x, 2);
    lemma_rows_of_walls(s, f, x, 3);
    lemma_rows_of_walls(s, f, x, 4);
    lemma_rows_of_walls(s, f, x, 5);
    lemma_rows_of_walls(s, f, x, 6);
    lemma_rows_of_walls(s, f, x, 7);
    lemma_parts_natural(s, f, false, 0, 0);
}

/// The best of one's own moves takes at least what each of them does.
proof fn lemma_own_at_least(s: AceState, f: spec_fn(i16) -> int, k: int, i: nat)
    requires
        k <= 0x1_0000_0000,
        i <= s.pawn_cells().len(),
        forall|j: int| 0 <= j < s.pawn_cells().len() ==> f(#[trigger] s.pawn_cells()[j]) >= k,
    ensures
        own_nodes(s, f, false, i) >= k,
    decreases i,
{
    if i > 0 {
        lemma_own_at_least(s, f, k, (i - 1) as nat);
        assert(f(s.pawn_cells()[i - 1]) >= k);
    }
}

/// The position after a pawn move that cannot arrive.
proof fn lemma_after_step(s: AceState, w: int, j: int)
    requires
        goes_on(s),
        0 <= w < 2,
        s.turn == w,
        to_go(w, s.pawn(w) / 9) >= 3,
        0 <= j < s.pawn_cells().len(),
    ensures
        ({
            let t = s.after(s.pawn_cells()[j]);
            &&& t.wf()
            &&& t.winner_spec() == -1
            &&& t.turn == 1 - w
            &&& t.hist.len() == s.hist.len() + 1
            &&& t.h == s.h
            &&& t.v == s.v
            &&& t.wl0 == s.wl0
            &&& t.wl1 == s.wl1
            &&& to_go(w, t.pawn(w) / 9) >= to_go(w, s.pawn(w) / 9) - 2
        }),
{
    let m = s.pawn_cells()[j];
    lemma_pawn_cells(s.h, s.v, s.pawn(s.turn), s.pawn(1 - s.turn));
    lemma_short_moves(s.h, s.v, s.pawn(s.turn), s.pawn(1 - s.turn), j);
    assert(s.pawn_cells().contains(m));
    assert(legal_in(s, m));
    lemma_legal_playable(s, m);
    lemma_ace_unmake_restores(s, m);
}

/// After one wall on a bare board, a proof takes 50 nodes more.
proof fn lemma_after_first_wall(s: AceState, w: int, n: nat, i: int, m: i16)
    requires
        goes_on(s),
        s.hist.len() < i32::MAX - 10,
        bare(s),
        0 <= w < 2,
        s.turn == 1 - w,
        s.wl(s.turn) >= 2,
        to_go(w, s.pawn(w) / 9) >= 3,
        n >= 4,
        0 <= i < 64,
        m == 100 + i || m == 200 + i,
    ensures
        legal_in(s, m),
        proof_nodes(s.after(m), w, (n - 1) as nat, false) >= 50,
{
    let t = s.after(m);
    let k = (n - 1) as nat;
    assert(walls_in_row(s, -9));
    lemma_far_wall(s, -9, i, m);
    lemma_after_wall(s, i, m);
    lemma_nodes_of(t, w, k, false);
    reveal(nodes_below);
    let f = nodes_after(t, w, k, false);
    assert forall|j: int| 0 <= j < t.pawn_cells().len() implies f(#[trigger] t.pawn_cells()[j])
        >= 49 by {
        lemma_after_step(t, w, j);
        let u = t.after(t.pawn_cells()[j]);
        assert(walls_in_row(u, i / 8));
        lemma_second_reply(u, w, (k - 1) as nat, i / 8);
        reveal(move_nodes);
    }
    lemma_own_at_least(t, f, 49, t.pawn_cells().len());
}

/// Slots that take a hundred nodes each.
proof fn lemma_hundreds(s: AceState, f: spec_fn(i16) -> int, i: nat)
    requires
        i <= 64,
        forall|j: int| 0 <= j < 64 ==> #[trigger] slot_nodes(s, f, j) >= 100,
    ensures
        wall_nodes(s, f, i) >= 100 * i,
    decreases i,
{
    if i > 0 {
        lemma_hundreds(s, f, (i - 1) as nat);
        assert(slot_nodes(s, f, i - 1) >= 100);
    }
}

/// On a bare board, with walls in the opponent's hand and the way still long, a
/// proof that starts with the opponent's move takes more than 6400 nodes.
pub proof fn lemma_bare_board_takes_long(s: AceState, w: int, n: nat)
    requires
        s.wf(),
        s.winner_spec() == -1,
        s.hist.len() < i32::MAX - 10,
        s.wl0 <= i32::MAX,
        s.wl1 <= i32::MAX,
        s.h == 0,
        s.v == 0,
        0 <= w < 2,
        s.turn == 1 - w,
        s.wl(s.turn) >= 2,
        to_go(w, s.pawn(w) / 9) >= 3,
        n >= 4,
    ensures
        proof_nodes(s, w, n, false) > OPENING_NODES,
{
    assert forall|r: int, c: int|
        #![trigger slot(s.h, r, c)]
        #![trigger slot(s.v, r, c)]
        !slot(s.h, r, c) && !slot(s.v, r, c) by {
        if 0 <= r < 8 && 0 <= c < 8 {
            lemma_bits64(0, 0, r * 8 + c);
        }
    }
    let f = nodes_after(s, w, n, false);
    lemma_nodes_of(s, w, n, false);
    reveal(nodes_below);
    lemma_after_natural(s, w, n, false);
    lemma_parts_natural(s, f, false, 0, s.pawn_cells().len());
    assert forall|i: int| 0 <= i < 64 implies #[trigger] slot_nodes(s, f, i) >= 100 by {
        let hm = (100 + i) as i16;
        let vm = (200 + i) as i16;
        lemma_after_first_wall(s, w, n, i, hm);
        lemma_after_first_wall(s, w, n, i, vm);
        reveal(move_nodes);
        assert(f(hm) >= 50 && f(vm) >= 50);
    }
    lemma_hundreds(s, f, 64);
}

/// Nodes within which nobody is certified at the start of a game.
pub const OPENING_NODES: u64 = 6400;

/// The start of a game, as far as a certificate depends on it.
pub open spec fn opening_position(s: AceState) -> bool {
    &&& s.h == 0
    &&& s.v == 0
    &&& s.p0 == 76
    &&& s.p1 == 4
    &&& s.wl0 == 10
    &&& s.wl1 == 10
    &&& s.turn == 0
}

/// At the start of a game a certificate of either side takes more than 6400
/// nodes.
pub proof fn lemma_opening_takes_long(s: AceState, w: int)
    requires
        opening_position(s),
        s.wf(),
        s.hist.len() < i32::MAX - 20,
        0 <= w < 2,
    ensures
        cert_nodes(s, w, false) > OPENING_NODES,
{
    lemma_rows_to_go(w, s.pawn(w));
    if w == 1 {
        lemma_bare_board_takes_long(s, 1, 18);
    } else {
        lemma_nodes_of(s, 0, 18, false);
        reveal(nodes_below);
        let f = nodes_after(s, 0, 18, false);
        assert forall|j: int| 0 <= j < s.pawn_cells().len() implies f(#[trigger] s.pawn_cells()[j])
            >= OPENING_NODES + 1 by {
            lemma_after_step(s, 0, j);
            lemma_bare_board_takes_long(s.after(s.pawn_cells()[j]), 0, 17);
            reveal(move_nodes);
        }
        lemma_own_at_least(s, f, OPENING_NODES + 1, s.pawn_cells().len());
    }
}

/// The start of a game on the board is one in the game.
pub proof fn lemma_opening_mirrored(b: Board, s: AceState)
    requires
        start_board(b),
        mirrors(b, s),
    ensures
        opening_position(s),
{
    assert(b.pawns[0] == b.pawns@[0] && b.pawns[1] == b.pawns@[1]);
    assert(b.walls_remaining[0] == b.walls_remaining@[0]);
    assert(b.walls_remaining[1] == b.walls_remaining@[1]);
    assert forall|i: int| 0 <= i < 64 implies #[trigger] bit64(s.h, i) == bit64(0, i) && bit64(
        s.v,
        i,
    ) == bit64(0, i) by {
        lemma_bits64(0, 0, i);
        lemma_bits64(0, 0, (7 - i / 8) * 8 + i % 8);
        assert(slot(s.h, i / 8, i % 8) == slot(0, 7 - i / 8, i % 8));
        assert(slot(s.v, i / 8, i % 8) == slot(0, 7 - i / 8, i % 8));
        assert(i / 8 * 8 + i % 8 == i);
    }
    assert forall|i: int| 0 <= i < 64 implies #[trigger] bit64(s.v, i) == bit64(0, i) by {
        assert(bit64(s.h, i) == bit64(0, i));
    }
    lemma_ext64(s.h, 0);
    lemma_ext64(s.v, 0);
}

} // verus!
