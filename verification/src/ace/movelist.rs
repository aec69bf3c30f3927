//! Move lists of a search node.

use vstd::prelude::*;

use crate::ace::bridge::{lemma_bridge_exact, TiBridge};
use crate::ace::certify::{legal_in, lemma_legal_playable};
use crate::ace::convert::{ace_move_to_board, is_ace_move, lemma_wall_slot, to_ace, to_board};
use crate::ace::game::{
    is_h_wall, is_pawn_move, is_v_wall, lemma_pawn_cells, move_orientation, wall_slot, AceGame,
    AceState,
};
use crate::cat::attention::CorridorAttention;
use crate::cat::heat::{build_corridor_attention, joint_attention};
use crate::cat::prune::{
    dead_zone, gap_play_zone_mask, in_gap_zone, wall_in_dead_zone, wall_should_search,
    worth_searching,
};
use crate::movegen::legal::{legal_moves, lemma_legal_moves_bounded, PawnGenMode};
use crate::path::bfs::BfsScratch;
use crate::path::route::{either_reaches, get_shortest_path, is_route};
use crate::position::board::{Board, Move};
use crate::util::bits::bit128;

verus! {

/// Which walls a list holds.
#[derive(Clone, Copy, PartialEq, Eq, Structural)]
pub enum WallRule {
    /// The legal ones.
    Legal,
    /// Those that collide with nothing; they may still close a way off.
    Fitting,
    /// Fitting ones that are worth a search, and the table's move.
    Relevant,
    /// Fitting ones outside the dead zones.
    Alive,
}

/// What the rules look at besides the game.
#[derive(Clone, Copy)]
pub struct WallScene {
    pub board: Board,
    pub cat: CorridorAttention,
    pub reachable: u128,
    pub gap_zone: u128,
    pub opp_path: [u8; 81],
    pub opp_path_len: usize,
    pub tt_move: i16,
}

/// The rule lets wall `m` through.
pub open spec fn lets_through(rule: WallRule, scene: WallScene, s: AceState, m: i16) -> bool {
    let fit = !s.wall_collides(wall_slot(m), move_orientation(m));
    match rule {
        WallRule::Legal => s.wall_legal_spec(wall_slot(m), move_orientation(m)),
        WallRule::Fitting => fit,
        WallRule::Relevant => fit && (m == scene.tt_move || worth_searching(
            scene.board,
            to_board(m),
            scene.cat,
            scene.reachable,
            scene.gap_zone,
            scene.opp_path@,
            scene.opp_path_len as int,
        )),
        WallRule::Alive => fit && !dead_zone(to_board(m), scene.reachable),
    }
}

/// The walls of the first `k` slots that the rule lets through.
pub open spec fn walls_listed(rule: WallRule, scene: WallScene, s: AceState, k: int) -> Seq<i16>
    decreases k,
{
    if k <= 0 {
        Seq::empty()
    } else {
        let h = (100 + k - 1) as i16;
        let v = (200 + k - 1) as i16;
        walls_listed(rule, scene, s, k - 1) + (if lets_through(rule, scene, s, h) {
            seq![h]
        } else {
            Seq::empty()
        }) + (if lets_through(rule, scene, s, v) {
            seq![v]
        } else {
            Seq::empty()
        })
    }
}

/// What a list of walls holds.
#[verifier::spinoff_prover]
pub proof fn lemma_walls_listed(rule: WallRule, scene: WallScene, s: AceState, k: int)
    requires
        0 <= k <= 64,
    ensures
        walls_listed(rule, scene, s, k).len() <= 2 * k,
        forall|i: int|
            0 <= i < walls_listed(rule, scene, s, k).len() ==> {
                let m = #[trigger] walls_listed(rule, scene, s, k)[i];
                (is_h_wall(m) || is_v_wall(m)) && wall_slot(m) < k && lets_through(rule, scene, s, m)
            },
        forall|m: i16|
            (is_h_wall(m) || is_v_wall(m)) && wall_slot(m) < k && #[trigger] lets_through(
                rule,
                scene,
                s,
                m,
            ) ==> walls_listed(rule, scene, s, k).contains(m),
    decreases k,
{
    if k > 0 {
        lemma_walls_listed(rule, scene, s, k - 1);
        let p = walls_listed(rule, scene, s, k - 1);
        let q = walls_listed(rule, scene, s, k);
        let h = (100 + k - 1) as i16;
        let v = (200 + k - 1) as i16;
        assert forall|i: int| 0 <= i < q.len() implies ({
            let m = #[trigger] q[i];
            (is_h_wall(m) || is_v_wall(m)) && wall_slot(m) < k && lets_through(rule, scene, s, m)
        }) by {
            if i < p.len() {
                assert(q[i] == p[i]);
            } else {
                assert(q[i] == h || q[i] == v);
                lemma_wall_slot(h);
                lemma_wall_slot(v);
            }
        }
        assert forall|m: i16|
            (is_h_wall(m) || is_v_wall(m)) && wall_slot(m) < k && #[trigger] lets_through(
                rule,
                scene,
                s,
                m,
            ) implies q.contains(m) by {
            lemma_wall_slot(m);
            if wall_slot(m) < k - 1 {
                let i = choose|i: int| 0 <= i < p.len() && p[i] == m;
                assert(q[i] == m);
            } else if m == h {
                assert(q[p.len() as int] == m);
            } else {
                assert(m == v);
                assert(q[q.len() - 1] == m);
            }
        }
    }
}

/// Whether the rule lets wall `m` through.
fn let_through(rule: WallRule, scene: &WallScene, g: &AceGame, bfs: &BfsScratch, m: i16) -> (r: bool)
    requires
        g.wf(),
        is_h_wall(m) || is_v_wall(m),
        scene.opp_path_len <= 81,
    ensures
        r == lets_through(rule, *scene, g@, m),
{
    let wall_type: usize = if m < 200 {
        0
    } else {
        1
    };
    let slot_no: usize = (m % 100) as usize;
    if rule == WallRule::Legal {
        return g.wall_legal(wall_type, slot_no);
    }
    if !g.wall_fits(wall_type, slot_no) {
        return false;
    }
    match rule {
        WallRule::Legal => true,
        WallRule::Fitting => true,
        WallRule::Relevant => {
            m == scene.tt_move || wall_should_search(
                ace_move_to_board(m),
                &scene.cat,
                scene.reachable,
                scene.gap_zone,
                &scene.board,
                0,
                0,
                &scene.opp_path,
                scene.opp_path_len,
                bfs,
            )
        },
        WallRule::Alive => !wall_in_dead_zone(ace_move_to_board(m), scene.reachable),
    }
}

/// Writes the walls that the rule lets through, from `n` on.
fn list_walls(rule: WallRule, scene: &WallScene, g: &AceGame, out: &mut [i16; 160], n: usize) -> (k: usize)
    requires
        g.wf(),
        scene.opp_path_len <= 81,
        n <= 32,
    ensures
        k == n + walls_listed(rule, *scene, g@, 64).len(),
        k <= 160,
        forall|i: int| 0 <= i < n ==> #[trigger] final(out)[i] == old(out)[i],
        forall|i: int|
            n <= i < k ==> #[trigger] final(out)[i] == walls_listed(rule, *scene, g@, 64)[i - n],
{
    let bfs: BfsScratch = BfsScratch::new();
    let mut k: usize = n;
    let mut slot_no: usize = 0;
    while slot_no < 64
        invariant
            slot_no <= 64,
            n <= 32,
            g.wf(),
            scene.opp_path_len <= 81,
            k == n + walls_listed(rule, *scene, g@, slot_no as int).len(),
            k <= n + 2 * slot_no,
            forall|i: int| 0 <= i < n ==> #[trigger] out[i] == old(out)[i],
            forall|i: int|
                n <= i < k ==> #[trigger] out[i] == walls_listed(
                    rule,
                    *scene,
                    g@,
                    slot_no as int,
                )[i - n],
        decreases 64 - slot_no,
    {
        let h: i16 = 100 + slot_no as i16;
        let v: i16 = 200 + slot_no as i16;
        let ghost before = walls_listed(rule, *scene, g@, slot_no as int);
        let ghost after = walls_listed(rule, *scene, g@, slot_no + 1);
        proof {
            assert(h == (100 + slot_no + 1 - 1) as i16);
            assert(v == (200 + slot_no + 1 - 1) as i16);
        }
        let keep_h: bool = let_through(rule, scene, g, &bfs, h);
        let keep_v: bool = let_through(rule, scene, g, &bfs, v);
        if keep_h {
            out[k] = h;
            k = k + 1;
        }
        if keep_v {
            out[k] = v;
            k = k + 1;
        }
        proof {
            assert forall|i: int| n <= i < k implies #[trigger] out[i] == after[i - n] by {
                if i - n < before.len() {
                    assert(after[i - n] == before[i - n]);
                }
            }
        }
        slot_no = slot_no + 1;
    }
    k
}

/// Which generator a search uses.
#[derive(Clone, Copy)]
pub struct GenMode {
    /// Moves come from the board of the bridge.
    pub ti_movegen: bool,
    /// Below the root only relevant walls are listed.
    pub cat_walls: bool,
    /// Below the root walls in dead zones are left out.
    pub dead_zone_prune: bool,
}

impl GenMode {
    /// The list comes from the board.
    pub open spec fn from_board(self, ply: int) -> bool {
        self.ti_movegen && (ply == 0 || (!self.cat_walls && !self.dead_zone_prune))
    }

    /// The rule of a node's walls otherwise.
    pub open spec fn rule(self, ply: int) -> WallRule {
        if ply == 0 {
            WallRule::Legal
        } else if self.cat_walls {
            WallRule::Relevant
        } else if self.dead_zone_prune {
            WallRule::Alive
        } else {
            WallRule::Fitting
        }
    }

    /// A bridge is there if the mode needs one.
    pub open spec fn served_by(self, bridge: Option<TiBridge>) -> bool {
        self.ti_movegen || self.cat_walls || self.dead_zone_prune ==> bridge is Some
    }
}

/// The scene shows the board's region, gaps, heat (from depth two on) and the
/// opponent's shortest way.
pub open spec fn scene_right(scene: WallScene, rule: WallRule, board: Board, depth: int) -> bool {
    &&& scene.opp_path_len <= 81
    &&& rule == WallRule::Relevant || rule == WallRule::Alive ==> scene.board == board
        && forall|i: int|
        0 <= i < 81 ==> bit128(scene.reachable, i) == #[trigger] either_reaches(board, i)
    &&& rule == WallRule::Relevant ==> {
        &&& forall|i: int|
            0 <= i < 128 ==> #[trigger] bit128(scene.gap_zone, i) == in_gap_zone(
                scene.reachable,
                i,
            )
        &&& depth >= 2 ==> joint_attention(board, scene.cat)
        &&& depth < 2 ==> forall|i: int|
            0 <= i < 81 ==> #[trigger] scene.cat.square_heat[i] == 0
                && scene.cat.bottleneck_heat[i] == 0
        &&& is_route(
            board,
            board.side_to_move.opposite_spec(),
            scene.opp_path@,
            scene.opp_path_len as int,
        )
    }
}

/// The moves of a node.
pub open spec fn node_moves(
    mode: GenMode,
    bridge: Option<TiBridge>,
    s: AceState,
    scene: WallScene,
    ply: int,
) -> Seq<i16> {
    if mode.from_board(ply) {
        legal_moves(bridge->0.board, PawnGenMode::O1Lookup).map_values(|mv: Move| to_ace(mv))
    } else if s.wl(s.turn) <= 0 {
        s.pawn_cells()
    } else {
        s.pawn_cells() + walls_listed(mode.rule(ply), scene, s, 64)
    }
}

/// The scene of a position for a rule.
fn build_scene(rule: WallRule, bridge: &Option<TiBridge>, depth: i32, tt_move: i16) -> (scene: WallScene)
    requires
        rule == WallRule::Relevant || rule == WallRule::Alive ==> bridge is Some,
        bridge matches Some(b) ==> b.board.wf(),
    ensures
        scene.tt_move == tt_move,
        scene.opp_path_len <= 81,
        bridge matches Some(b) ==> scene_right(scene, rule, b.board, depth as int),
{
    let mut scene: WallScene = WallScene {
        board: Board::new(),
        cat: CorridorAttention::default(),
        reachable: 0,
        gap_zone: 0,
        opp_path: [0u8; 81],
        opp_path_len: 0,
        tt_move,
    };
    match bridge {
        Some(b) => {
            if rule == WallRule::Relevant || rule == WallRule::Alive {
                scene.board = b.board;
                scene.reachable = b.bfs.both_reachable_mask(&b.board);
            }
            if rule == WallRule::Relevant {
                scene.gap_zone = gap_play_zone_mask(scene.reachable);
                if depth >= 2 {
                    scene.cat = build_corridor_attention(&b.board);
                }
                let mut path: [u8; 81] = [0u8; 81];
                let len: usize = get_shortest_path(
                    &b.board,
                    b.board.side().opposite(),
                    &b.bfs,
                    &mut path,
                );
                scene.opp_path = path;
                scene.opp_path_len = len;
            }
            assert(scene_right(scene, rule, b.board, depth as int));
        },
        None => {},
    }
    scene
}

/// Every move of a node can be played; at the root every move is legal.
pub proof fn lemma_node_moves(
    mode: GenMode,
    bridge: Option<TiBridge>,
    s: AceState,
    scene: WallScene,
    ply: int,
)
    requires
        s.wf(),
        mode.served_by(bridge),
        bridge matches Some(b) ==> b.in_step(s, ply),
    ensures
        node_moves(mode, bridge, s, scene, ply).len() <= 160,
        forall|i: int|
            0 <= i < node_moves(mode, bridge, s, scene, ply).len() ==> is_ace_move(
                #[trigger] node_moves(mode, bridge, s, scene, ply)[i],
            ) && s.playable(node_moves(mode, bridge, s, scene, ply)[i]),
        ply == 0 || mode.from_board(ply) ==> forall|i: int|
            0 <= i < node_moves(mode, bridge, s, scene, ply).len() ==> legal_in(
                s,
                #[trigger] node_moves(mode, bridge, s, scene, ply)[i],
            ),
        (ply == 0 || mode.from_board(ply)) && s.winner_spec() == -1 ==> forall|m: i16| #[trigger]
            legal_in(s, m) ==> node_moves(mode, bridge, s, scene, ply).contains(m),
        s.pawn_cells().len() <= 5,
        walls_listed(mode.rule(ply), scene, s, 64).len() <= 128,
{
    let all = node_moves(mode, bridge, s, scene, ply);
    lemma_pawn_cells(s.h, s.v, s.pawn(s.turn), s.pawn(1 - s.turn));
    lemma_walls_listed(mode.rule(ply), scene, s, 64);
    if mode.from_board(ply) {
        let b = bridge->0;
        let list = legal_moves(b.board, PawnGenMode::O1Lookup);
        lemma_legal_moves_bounded(b.board, PawnGenMode::O1Lookup);
        assert forall|i: int| 0 <= i < all.len() implies legal_in(s, #[trigger] all[i]) && is_ace_move(
            all[i],
        ) && s.playable(all[i]) by {
            let m = all[i];
            assert(to_ace(list[i]) == m);
            assert(b.board.winner() is None);
            lemma_bridge_exact(b, s, ply, m);
            lemma_legal_playable(s, m);
        }
        if s.winner_spec() == -1 {
            assert(b.board.winner() is None) by {
                assert(b.board.pawns[0] == b.board.pawns@[0]);
                assert(b.board.pawns[1] == b.board.pawns@[1]);
            }
            assert forall|m: i16| #[trigger] legal_in(s, m) implies all.contains(m) by {
                lemma_bridge_exact(b, s, ply, m);
                let i = choose|i: int| 0 <= i < list.len() && to_ace(#[trigger] list[i]) == m;
                assert(all[i] == m);
            }
        }
    } else {
        let cells = s.pawn_cells();
        let walls = walls_listed(mode.rule(ply), scene, s, 64);
        assert forall|i: int| 0 <= i < all.len() implies is_ace_move(#[trigger] all[i])
            && s.playable(all[i]) by {
            if i < cells.len() {
                assert(all[i] == cells[i]);
            } else {
                let m = all[i];
                assert(m == walls[i - cells.len()]);
                if mode.rule(ply) == WallRule::Legal {
                    assert(legal_in(s, m));
                    lemma_legal_playable(s, m);
                }
            }
        }
        if ply == 0 {
            assert forall|i: int| 0 <= i < all.len() implies legal_in(s, #[trigger] all[i]) by {
                if i < cells.len() {
                    assert(all[i] == cells[i]);
                    assert(cells.contains(all[i]));
                } else {
                    assert(all[i] == walls[i - cells.len()]);
                }
            }
            assert forall|m: i16| #[trigger] legal_in(s, m) implies all.contains(m) by {
                if is_pawn_move(m) {
                    let i = choose|i: int| 0 <= i < cells.len() && cells[i] == m;
                    assert(all[i] == m);
                } else {
                    assert(lets_through(WallRule::Legal, scene, s, m));
                    let i = choose|i: int| 0 <= i < walls.len() && walls[i] == m;
                    assert(all[cells.len() + i] == m);
                }
            }
        }
    }
}

/// Writes the moves of a node; their number. Moves at the root are the legal
/// ones; below it walls may still close a way off unless they come from the
/// board.
pub fn gen_moves(
    g: &AceGame,
    bridge: &Option<TiBridge>,
    mode: GenMode,
    ply: usize,
    depth: i32,
    tt_move: i16,
    out: &mut [i16; 160],
) -> (n: usize)
    requires
        g.wf(),
        mode.served_by(*bridge),
        bridge matches Some(b) ==> b.in_step(g@, ply as int),
    ensures
        n <= 160,
        exists|scene: WallScene|
            #![trigger node_moves(mode, *bridge, g@, scene, ply as int)]
            scene.tt_move == tt_move && (bridge matches Some(b) ==> scene_right(
                scene,
                mode.rule(ply as int),
                b.board,
                depth as int,
            )) && final(out)@.subrange(0, n as int) == node_moves(
                mode,
                *bridge,
                g@,
                scene,
                ply as int,
            ),
        forall|i: int|
            0 <= i < n ==> is_ace_move(#[trigger] final(out)[i]) && g@.playable(final(out)[i]),
        ply == 0 || mode.from_board(ply as int) ==> forall|i: int|
            0 <= i < n ==> legal_in(g@, #[trigger] final(out)[i]),
        (ply == 0 || mode.from_board(ply as int)) && g@.winner_spec() == -1 ==> forall|m: i16|
            #[trigger]
            legal_in(g@, m) ==> exists|i: int| 0 <= i < n && final(out)[i] == m,
        g@.winner_spec() == -1 ==> forall|m: i16| #[trigger]
            legal_in(g@, m) && m < 100 ==> exists|i: int| 0 <= i < n && final(out)[i] == m,
{
    let check_legal: bool = ply == 0;
    let ghost s = g@;
    let board_list: bool = mode.ti_movegen && (check_legal || (!mode.cat_walls
        && !mode.dead_zone_prune));
    let rule: WallRule = if check_legal {
        WallRule::Legal
    } else if mode.cat_walls {
        WallRule::Relevant
    } else if mode.dead_zone_prune {
        WallRule::Alive
    } else {
        WallRule::Fitting
    };
    let scene: WallScene = build_scene(rule, bridge, depth, tt_move);
    proof {
        lemma_node_moves(mode, *bridge, s, scene, ply as int);
    }
    let mut n: usize = 0;
    if board_list {
        match bridge {
            Some(b) => {
                n = b.gen_legal_ace(out);
            },
            None => {},
        }
    } else {
        n = g.gen_pawn_moves(out, 0);
        if g.wl[g.turn] > 0 {
            n = list_walls(rule, &scene, g, out, n);
        }
    }
    proof {
        let all = node_moves(mode, *bridge, s, scene, ply as int);
        assert(n == all.len());
        assert(out@.subrange(0, n as int) =~= all);
        assert forall|i: int| 0 <= i < n implies #[trigger] out[i] == all[i] by {
            assert(out@.subrange(0, n as int)[i] == out@[i]);
        }
        if s.winner_spec() == -1 {
            assert forall|m: i16| #[trigger] legal_in(s, m) && m < 100 implies exists|i: int|
                0 <= i < n && out[i] == m by {
                if mode.from_board(ply as int) {
                    let i = choose|i: int| 0 <= i < all.len() && all[i] == m;
                    assert(out[i] == m);
                } else {
                    let cells = s.pawn_cells();
                    let i = choose|i: int| 0 <= i < cells.len() && cells[i] == m;
                    assert(all[i] == m);
                    assert(out[i] == m);
                }
            }
        }
        if (ply == 0 || mode.from_board(ply as int)) && s.winner_spec() == -1 {
            assert forall|m: i16| #[trigger] legal_in(s, m) implies exists|i: int|
                0 <= i < n && out[i] == m by {
                let i = choose|i: int| 0 <= i < all.len() && all[i] == m;
                assert(out[i] == m);
            }
        }
    }
    n
}

/// No legal move is overlooked: a search that neither looks for relevant walls
/// only nor leaves out dead zones lists all of them at every node, and any search
/// at the root.
pub proof fn lemma_no_legal_move_is_overlooked(
    mode: GenMode,
    bridge: Option<TiBridge>,
    s: AceState,
    scene: WallScene,
    ply: int,
    m: i16,
)
    requires
        s.wf(),
        mode.served_by(bridge),
        bridge matches Some(b) ==> b.in_step(s, ply),
        s.winner_spec() == -1,
        legal_in(s, m),
        ply == 0 || (!mode.cat_walls && !mode.dead_zone_prune),
    ensures
        node_moves(mode, bridge, s, scene, ply).contains(m),
{
    lemma_node_moves(mode, bridge, s, scene, ply);
    if !(ply == 0 || mode.from_board(ply)) {
        let list = node_moves(mode, bridge, s, scene, ply);
        let cells = s.pawn_cells();
        let walls = walls_listed(mode.rule(ply), scene, s, 64);
        if is_pawn_move(m) {
            let c = choose|c: int| 0 <= c < cells.len() && cells[c] == m;
            assert(list[c] == m);
        } else {
            lemma_legal_playable(s, m);
            lemma_walls_listed(mode.rule(ply), scene, s, 64);
            lemma_wall_slot(m);
            assert(lets_through(mode.rule(ply), scene, s, m));
            let i = choose|i: int| 0 <= i < walls.len() && walls[i] == m;
            assert(list[cells.len() as int + i] == m);
        }
    }
}

} // verus!
