//! Corridor attention, pruning and ordering of moves.

use titanium::cat::attention::CorridorAttention;
use titanium::cat::collect::collect_search_moves;
use titanium::cat::constants::{CAT_COLD_CM, DIST_PENALTY, MAX_RELEVANT_CORRIDOR_DELTA};
use titanium::cat::depth::{
    cat_heat_child_depth, cat_heat_depth_reduction, cat_lmr_total_reduction, cat_v16_lmr_ceiling,
    cat_v16_lmr_extra_plies, cat_v16_lmr_fringe_pct_for_worker, cat_v16_lmr_reduction_plies,
    is_cat_hot_corridor, is_lmr_heat_hot, HeatBand, HeatShare,
};
use titanium::cat::heat::{build_impact_heatmap, corridor_heat};
use titanium::cat::moves::CatHeatRefs;
use titanium::cat::order::{mirror_move, order_moves, BookHint, OrderExtras};
use titanium::cat::prune::{
    blocks_cross_gap_wall, gap_play_zone_mask, is_cross_gap_wall, path_distance,
    wall_shape_attention_bonus, wall_should_search, WALL_CROSS_GAP_CM,
};
use titanium::movegen::legal::{generate_legal_moves_slice, MAX_LEGAL_MOVES};
use titanium::path::bfs::BfsScratch;
use titanium::path::route::get_shortest_path;
use titanium::position::board::{Board, Move, Player, WallOrientation};
use titanium::position::zobrist::hash_board;
use titanium::util::grid::set_wall;
use titanium::util::notation::format_move;

/// The share of a heat between cold and the hottest.
fn cat_heat_fraction(cat_cm: i32, cat_max: u16, cold_cm: u16) -> f32 {
    if cat_max <= cold_cm {
        return if cat_cm > i32::from(cold_cm) { 1.0 } else { 0.0 };
    }
    let h = cat_cm.max(0) as f32;
    let cold = cold_cm as f32;
    let max_h = cat_max as f32;
    ((h - cold) / (max_h - cold)).clamp(0.0, 1.0)
}

fn heat_share(cat_cm: i32, cat_max: u16, cold_cm: u16, full: u32) -> HeatShare {
    let t = cat_heat_fraction(cat_cm, cat_max, cold_cm);
    let band = if t < 0.08 {
        HeatBand::Frozen
    } else if t < 0.18 {
        HeatBand::Cold
    } else if t < 0.22 {
        HeatBand::Chilly
    } else if t < 0.35 {
        HeatBand::Cool
    } else {
        HeatBand::Warm
    };
    let scaled = (t.powf(2.35) * full as f32).round().max(1.0) as u32;
    HeatShare { band, scaled }
}

fn cat_corridor_order_boost(cat_cm: i32, cat_max: u16, cold_cm: u16) -> i32 {
    (cat_heat_fraction(cat_cm, cat_max, cold_cm) * 16_000.0).round() as i32
}

fn reaches(cat_cm: i32, cat_max: u16, cold_cm: u16, pct: u16) -> bool {
    cat_heat_fraction(cat_cm, cat_max, cold_cm) * 100.0 >= pct as f32
}

#[test]
fn impact_heatmap_hot_on_shared_corridor_cold_in_corner() {
    let board = Board::new();
    let cat = build_impact_heatmap(&board);
    let center = cat.square_heat(4, 4); // e5 — both players' shortest corridor
    let corner = cat.square_heat(0, 0); // a1 — far off any near-shortest path
    assert!(center > 0, "center should be hot: {center}");
    assert!(
        center > corner.saturating_mul(2),
        "shared corridor {center} >> corner {corner}"
    );
}

#[test]
fn impact_heatmap_wall_on_corridor_beats_wall_in_corner() {
    // A wall edge sitting on the central shared corridor must read hotter than
    // one tucked in the corner — the whole point of CAT for LMR.
    let board = Board::new();
    let cat = build_impact_heatmap(&board);
    let central = cat.wall_edge_heat(3, 3, WallOrientation::Horizontal);
    let corner = cat.wall_edge_heat(0, 0, WallOrientation::Horizontal);
    assert!(central > corner, "central wall {central} > corner wall {corner}");
}

#[test]
fn center_hotter_than_corner_at_startpos() {
    let board = Board::new();
    let scratch = BfsScratch::new();
    let cat = scratch.build_corridor_attention(&board);
    let center = cat.square_heat(4, 4);
    let corner = cat.square_heat(0, 0);
    // With the δ≤4 path-set tolerance the corner sits on a *4th-suboptimal*
    // route, so it carries minimal heat (corridor_heat(4)=18) rather than
    // exactly 0 — the invariant is that the central corridor runs far hotter.
    assert!(center > corner.saturating_mul(4), "center {center} ≫ corner {corner}");
}

#[test]
fn e_file_heat_peaks_at_pawns_not_uniform() {
    let board = Board::new();
    let scratch = BfsScratch::new();
    let cat = scratch.build_corridor_attention(&board);
    let white_pawn = cat.square_heat(0, 4);
    let center = cat.square_heat(4, 4);
    let black_pawn = cat.square_heat(8, 4);
    assert!(
        white_pawn > center,
        "e1 hotter than e5, {white_pawn} vs {center}"
    );
    assert!(
        black_pawn > center,
        "e9 hotter than e5, {black_pawn} vs {center}"
    );
    assert!(
        white_pawn >= 190,
        "pawn square near full corridor cm, got {white_pawn}"
    );
    assert!(black_pawn >= 190);
    assert!(
        center < white_pawn,
        "pawn still hottest, pawn={white_pawn} center={center}"
    );
    assert!(
        center > 100,
        "mid-race corridor stays warm enough for wall search, center={center}"
    );
}

#[test]
fn open_board_corners_stay_cold_for_search() {
    let board = Board::new();
    let scratch = BfsScratch::new();
    let cat = scratch.build_corridor_attention(&board);
    // δ≤4 tolerance: corners sit on a 4th-suboptimal route → minimal (not zero) heat.
    assert!(
        cat.square_heat(0, 0) <= corridor_heat(MAX_RELEVANT_CORRIDOR_DELTA),
        "corner stays minimal, got {}",
        cat.square_heat(0, 0)
    );
    assert_eq!(cat.square_heat(0, 0), cat.square_heat(8, 8));
    assert!(
        cat.square_heat(4, 4) < cat.square_heat(0, 4),
        "center must stay cooler than pawn lane"
    );
    assert!(
        cat.square_heat(0, 4) < 220,
        "pawn heat should not stack two players, got {}",
        cat.square_heat(0, 4)
    );
}

#[test]
fn far_corridor_squares_cooler_than_near_pawn() {
    let board = Board::new();
    let scratch = BfsScratch::new();
    let cat = scratch.build_corridor_attention(&board);
    assert!(cat.square_heat(0, 4) > cat.square_heat(2, 4));
    assert!(cat.square_heat(8, 4) > cat.square_heat(6, 4));
}

#[test]
fn wall_heat_prefers_central_corridor() {
    let board = Board::new();
    let scratch = BfsScratch::new();
    let cat = scratch.build_corridor_attention(&board);
    let central = cat.wall_edge_heat(3, 4, WallOrientation::Horizontal);
    let passive = cat.wall_edge_heat(0, 0, WallOrientation::Horizontal);
    assert!(central > passive);
    assert!(passive <= 50);
}

#[test]
fn multiple_lanes_after_wall() {
    let mut board = Board::new();
    set_wall(&mut board, 3, 4, WallOrientation::Horizontal, true);
    let scratch = BfsScratch::new();
    let cat = scratch.build_corridor_attention(&board);
    assert!(cat.square_heat(4, 3) > 0);
    assert!(cat.square_heat(4, 5) > 0);
}

#[test]
fn cat_heat_fraction_and_lmr_scale_proportionally() {
    let cold = 90u16;
    let max = 250u16;
    let f100 = cat_heat_fraction(100, max, cold);
    let f200 = cat_heat_fraction(200, max, cold);
    assert!(
        f200 > f100 * 5.0,
        "200cm should dominate 100cm: {f200} vs {f100}"
    );
    let r100 = cat_heat_depth_reduction(100, max, cold, 7, &heat_share);
    let r200 = cat_heat_depth_reduction(200, max, cold, 7, &heat_share);
    let r245 = cat_heat_depth_reduction(245, max, cold, 7, &heat_share);
    assert!(
        r100 > r200 && r200 > r245,
        "colder walls should lose more depth: 100={r100} 200={r200} 245={r245}"
    );
    let boost100 = cat_corridor_order_boost(100, max, cold);
    let boost200 = cat_corridor_order_boost(200, max, cold);
    assert!(boost200 > boost100 * 5);
}

#[test]
fn cat_v16_fringe_caps_child_depth_at_one() {
    let refs = CatHeatRefs {
        all: 900,
        walls: 900,
        pawns: 400,
    };
    let cold_wall = Move::Wall {
        row: 0,
        col: 0,
        orientation: WallOrientation::Horizontal,
    };
    let red = cat_v16_lmr_reduction_plies(cold_wall, 80, refs, 800, 10, 9, &heat_share);
    assert_eq!(red, 8, "80cm <= 10% of 800cm ceiling → depth-1 child");
    let warm = cat_v16_lmr_reduction_plies(cold_wall, 500, refs, 800, 10, 9, &heat_share);
    assert!(warm < 8, "warm corridor should keep more than 1 ply");
}

#[test]
fn cat_v16_worker_fringe_schedule_caps_at_seventy_percent() {
    let schedule: Vec<u16> = (0..10).map(cat_v16_lmr_fringe_pct_for_worker).collect();
    assert_eq!(schedule, vec![5, 10, 20, 30, 40, 50, 60, 70, 70, 70]);
}

#[test]
fn cat_v16_helper_fringe_is_more_aggressive_than_main() {
    let refs = CatHeatRefs {
        all: 800,
        walls: 800,
        pawns: 400,
    };
    let wall = Move::Wall {
        row: 0,
        col: 0,
        orientation: WallOrientation::Horizontal,
    };
    let main_red = cat_v16_lmr_reduction_plies(wall, 200, refs, 800, 5, 9, &heat_share);
    let helper_red = cat_v16_lmr_reduction_plies(wall, 200, refs, 800, 30, 9, &heat_share);
    assert!(main_red < 8, "200cm is warm at the main 5% threshold");
    assert_eq!(
        helper_red, 8,
        "200cm is fringe for a helper using a 30% threshold"
    );
}

#[test]
fn cat_v16_uses_wall_position_max_not_pawn_heat() {
    let refs = CatHeatRefs {
        all: 900,
        walls: 120,
        pawns: 900,
    };
    let wall = Move::Wall {
        row: 0,
        col: 0,
        orientation: WallOrientation::Horizontal,
    };
    let warm_wall = cat_v16_lmr_reduction_plies(wall, 80, refs, 800, 10, 7, &heat_share);
    assert!(
        warm_wall < 6,
        "80cm is warm against 120cm wall max, even if pawn heat is 900cm"
    );
    let cold_wall = cat_v16_lmr_reduction_plies(wall, 12, refs, 800, 10, 7, &heat_share);
    assert_eq!(cold_wall, 6, "at 10% of wall max searches child depth 1");
}

#[test]
fn symmetric_flank_pawns_interleave_in_tied_order_band() {

    let mut board = Board::new();
    board.apply_algebraic("e2");
    board.apply_algebraic("e8");
    let bfs = BfsScratch::new();
    let mut scratch = [Move::Pawn { row: 0, col: 0 }; MAX_LEGAL_MOVES];
    let full = generate_legal_moves_slice(&board, &mut scratch, &bfs);
    let mut buf = [Move::Pawn { row: 0, col: 0 }; MAX_LEGAL_MOVES];
    let n = full.min(buf.len());
    buf[..n].copy_from_slice(&scratch[..n]);
    let mut scores = [0i32; MAX_LEGAL_MOVES];
    let cat = bfs.build_corridor_attention(&board);
    let mut opp_path = [0u8; 81];
    let opp_len = get_shortest_path(&board, board.side().opposite(), &bfs, &mut opp_path);
    let our_dist = bfs
        .shortest_distance(&board, board.side())
        .unwrap_or(DIST_PENALTY);
    let opp_dist = path_distance(board.side().opposite(), &opp_path, opp_len);
    order_moves(
        &board,
        &mut buf,
        n,
        None,
        None,
        &mut scores,
        our_dist,
        opp_dist,
        &opp_path,
        opp_len,
        &bfs,
        &cat,
        &OrderExtras::default(),
        &|_| 0,
        &cat_corridor_order_boost,
    );
    let d2 = buf[..n]
        .iter()
        .position(|&m| format_move(m) == "d2")
        .expect("d2 legal");
    let f2 = buf[..n]
        .iter()
        .position(|&m| format_move(m) == "f2")
        .expect("f2 legal");
    assert!(
        d2.abs_diff(f2) <= 2,
        "flank pawns should interleave (d2 @ {d2}, f2 @ {f2}); order: {}",
        buf[..n]
            .iter()
            .map(|m| format_move(*m))
            .collect::<Vec<_>>()
            .join(" ")
    );
}

#[test]
fn blocks_cross_gap_detects_shifted_prevention() {
    let mut board = Board::new();
    set_wall(&mut board, 2, 4, WallOrientation::Vertical, true);
    set_wall(&mut board, 4, 4, WallOrientation::Vertical, true);
    assert!(blocks_cross_gap_wall(
        &board,
        3,
        3,
        WallOrientation::Horizontal
    ));
    assert!(blocks_cross_gap_wall(
        &board,
        3,
        5,
        WallOrientation::Horizontal
    ));
    assert!(!blocks_cross_gap_wall(
        &board,
        3,
        4,
        WallOrientation::Horizontal
    ));
}

#[test]
fn wall_shape_bonus_only_for_hot_cross_gap() {
    let mut board = Board::new();
    set_wall(&mut board, 2, 4, WallOrientation::Vertical, true);
    set_wall(&mut board, 4, 4, WallOrientation::Vertical, true);
    let cold_cat = CorridorAttention::default();
    let cross = Move::Wall {
        row: 3,
        col: 4,
        orientation: WallOrientation::Horizontal,
    };
    assert_eq!(
        wall_shape_attention_bonus(&board, cross, &cold_cat),
        0,
        "cold CAT should not revive unrelated shape bonus"
    );

    let bfs = BfsScratch::new();
    let hot_cat = bfs.build_corridor_attention(&board);
    assert!(
        wall_shape_attention_bonus(&board, cross, &hot_cat) >= WALL_CROSS_GAP_CM,
        "hot corridor cross-gap should get a tiny ordering nudge"
    );
}

#[test]
fn cross_gap_wall_detects_perpendicular_through_gap() {
    let mut board = Board::new();
    set_wall(&mut board, 2, 4, WallOrientation::Vertical, true);
    set_wall(&mut board, 4, 4, WallOrientation::Vertical, true);
    assert!(is_cross_gap_wall(&board, 3, 4, WallOrientation::Horizontal));
    assert!(!is_cross_gap_wall(&board, 3, 4, WallOrientation::Vertical));
}

#[test]
fn cross_gap_ignores_adjacent_chain_t_junction() {
    let mut board = Board::new();
    set_wall(&mut board, 2, 4, WallOrientation::Vertical, true);
    set_wall(&mut board, 3, 4, WallOrientation::Vertical, true);
    assert!(!is_cross_gap_wall(
        &board,
        3,
        4,
        WallOrientation::Horizontal
    ));
}

#[test]
fn left_chain_keeps_gap_tactics() {
    let mut board = Board::new();
    // Vertical chain on c|d (col 2) with deliberate gaps between segments.
    for row in [0u8, 2, 4, 6] {
        set_wall(&mut board, row, 2, WallOrientation::Vertical, true);
    }
    board.pawns = [(3, 0), (5, 0)]; // a4, a6 — left pocket
    board.hash = hash_board(&board);

    let bfs = BfsScratch::new();
    let cat = bfs.build_corridor_attention(&board);
    let reachable = bfs.both_reachable_mask(&board);
    let our_dist = bfs
        .shortest_distance(&board, Player::One)
        .unwrap_or(DIST_PENALTY);
    let opp_dist = bfs
        .shortest_distance(&board, Player::Two)
        .unwrap_or(DIST_PENALTY);
    let mut opp_path = [0u8; 81];
    let opp_path_len = get_shortest_path(&board, Player::Two, &bfs, &mut opp_path);
    let gap_zone = gap_play_zone_mask(reachable);

    let cross_gap = Move::Wall {
        row: 3,
        col: 2,
        orientation: WallOrientation::Horizontal,
    };
    let cross_board = board.clone();
    assert!(
        is_cross_gap_wall(&cross_board, 3, 2, WallOrientation::Horizontal),
        "H through V|gap|V should be detected"
    );
    assert!(
        wall_should_search(
            cross_gap,
            &cat,
            reachable,
            gap_zone,
            &cross_board,
            our_dist,
            opp_dist,
            &opp_path,
            opp_path_len,
            &bfs,
        ),
        "horizontal through chain gap must stay searchable"
    );

    let flank_block = Move::Wall {
        row: 3,
        col: 3,
        orientation: WallOrientation::Horizontal,
    };
    let flank_board = board.clone();
    assert!(
        blocks_cross_gap_wall(&flank_board, 3, 3, WallOrientation::Horizontal),
        "shifted block beside gap should be detected"
    );
    assert!(
        wall_should_search(
            flank_block,
            &cat,
            reachable,
            gap_zone,
            &flank_board,
            our_dist,
            opp_dist,
            &opp_path,
            opp_path_len,
            &bfs,
        ),
        "flank block preventing half-protrusion into void must stay searchable"
    );
}

#[test]
fn gap_mouth_keeps_t_junction_tactics_prunes_deep_void() {
    let mut board = Board::new();
    // Three walls around a T mouth; fourth slot open at (3,4) horizontal.
    set_wall(&mut board, 2, 4, WallOrientation::Vertical, true);
    set_wall(&mut board, 3, 3, WallOrientation::Vertical, true);
    set_wall(&mut board, 3, 5, WallOrientation::Vertical, true);
    board.pawns = [(4, 4), (6, 4)];
    board.hash = hash_board(&board);

    let bfs = BfsScratch::new();
    let cat = bfs.build_corridor_attention(&board);
    let reachable = bfs.both_reachable_mask(&board);
    let gap_zone = gap_play_zone_mask(reachable);
    // No square is actually sealed here — gap zone must be empty. (The old
    // 0..=9 bounds bug made every board edge a phantom mouth.)
    assert_eq!(
        gap_zone, 0,
        "no sealed territory → gap play zone must be empty"
    );
    let our_dist = bfs
        .shortest_distance(&board, Player::One)
        .unwrap_or(DIST_PENALTY);
    let opp_dist = bfs
        .shortest_distance(&board, Player::Two)
        .unwrap_or(DIST_PENALTY);
    let mut opp_path = [0u8; 81];
    let opp_path_len = get_shortest_path(&board, Player::Two, &bfs, &mut opp_path);

    let mouth_wall = Move::Wall {
        row: 3,
        col: 4,
        orientation: WallOrientation::Horizontal,
    };
    let mouth_board = board.clone();
    assert!(
        wall_should_search(
            mouth_wall,
            &cat,
            reachable,
            gap_zone,
            &mouth_board,
            our_dist,
            opp_dist,
            &opp_path,
            opp_path_len,
            &bfs,
        ),
        "wall at T-junction gap mouth must stay searchable"
    );

    // Fully sealed pocket on the far left — interior wall does not touch gap mouth.
    let mut pocket = Board::new();
    for &(row, col, orient) in &[
        (1, 0, WallOrientation::Vertical),
        (1, 1, WallOrientation::Horizontal),
        (2, 0, WallOrientation::Horizontal),
    ] {
        set_wall(&mut pocket, row, col, orient, true);
    }
    let reachable_pocket = bfs.both_reachable_mask(&pocket);
    let gap_zone_pocket = gap_play_zone_mask(reachable_pocket);
    let inner = Move::Wall {
        row: 0,
        col: 0,
        orientation: WallOrientation::Vertical,
    };
    let inner_board = pocket.clone();
    assert!(
        !wall_should_search(
            inner,
            &CorridorAttention::default(),
            reachable_pocket,
            gap_zone_pocket,
            &inner_board,
            DIST_PENALTY,
            DIST_PENALTY,
            &opp_path,
            opp_path_len,
            &bfs,
        ),
        "interior sealed void wall away from gap mouth must be pruned"
    );
}

#[test]
fn dead_zone_prunes_walls_in_unreachable_void() {
    let board = Board::new();
    let bfs = BfsScratch::new();
    let cat = CorridorAttention::default();
    let _reachable = bfs.both_reachable_mask(&board);
    let mut opp_path = [0u8; 81];
    let opp_path_len = get_shortest_path(&board, Player::Two, &bfs, &mut opp_path);

    // Fully buried inner wall — every touched square is outside both floods.
    let mut pocket = Board::new();
    for &(row, col, orient) in &[
        (1, 0, WallOrientation::Vertical),
        (1, 1, WallOrientation::Horizontal),
        (2, 0, WallOrientation::Horizontal),
    ] {
        set_wall(&mut pocket, row, col, orient, true);
    }
    let inner_t = Move::Wall {
        row: 0,
        col: 0,
        orientation: WallOrientation::Vertical,
    };
    let reachable_pocket = bfs.both_reachable_mask(&pocket);
    let gap_zone_pocket = gap_play_zone_mask(reachable_pocket);
    let pocket_board = pocket.clone();
    assert!(
        !wall_should_search(
            inner_t,
            &cat,
            reachable_pocket,
            gap_zone_pocket,
            &pocket_board,
            DIST_PENALTY,
            DIST_PENALTY,
            &opp_path,
            opp_path_len,
            &bfs,
        ),
        "walls in a sealed void cannot affect play on the live side of the chain"
    );
}

#[test]
fn wall_search_prunes_enclosed_t_keeps_corridor_blocks() {
    let board = Board::new();
    let bfs = BfsScratch::new();
    let cat = bfs.build_corridor_attention(&board);
    let reachable = bfs.both_reachable_mask(&board);
    let our_dist = bfs
        .shortest_distance(&board, Player::One)
        .unwrap_or(DIST_PENALTY);
    let opp_dist = bfs
        .shortest_distance(&board, Player::Two)
        .unwrap_or(DIST_PENALTY);
    let mut opp_path = [0u8; 81];
    let opp_path_len = get_shortest_path(&board, Player::Two, &bfs, &mut opp_path);
    let gap_zone = gap_play_zone_mask(reachable);

    let passive_corner = Move::Wall {
        row: 0,
        col: 0,
        orientation: WallOrientation::Horizontal,
    };
    let passive_board = board.clone();
    assert!(
        !wall_should_search(
            passive_corner,
            &cat,
            reachable,
            gap_zone,
            &passive_board,
            our_dist,
            opp_dist,
            &opp_path,
            opp_path_len,
            &bfs,
        ),
        "passive corner T-wall should be pruned"
    );

    let corridor_wall = Move::Wall {
        row: 3,
        col: 4,
        orientation: WallOrientation::Horizontal,
    };
    let corridor_board = board.clone();
    assert!(
        wall_should_search(
            corridor_wall,
            &cat,
            reachable,
            gap_zone,
            &corridor_board,
            our_dist,
            opp_dist,
            &opp_path,
            opp_path_len,
            &bfs,
        ),
        "central corridor wall should stay searchable"
    );

    let mut pocket = Board::new();
    for &(row, col, orient) in &[
        (1, 0, WallOrientation::Vertical),
        (1, 1, WallOrientation::Horizontal),
        (2, 0, WallOrientation::Horizontal),
    ] {
        set_wall(&mut pocket, row, col, orient, true);
    }
    let cat_pocket = bfs.build_corridor_attention(&pocket);
    let reachable_pocket = bfs.both_reachable_mask(&pocket);
    let gap_zone_pocket = gap_play_zone_mask(reachable_pocket);
    let our_dist_pocket = bfs
        .shortest_distance(&pocket, Player::One)
        .unwrap_or(DIST_PENALTY);
    let opp_dist_pocket = bfs
        .shortest_distance(&pocket, Player::Two)
        .unwrap_or(DIST_PENALTY);
    let mut opp_path_pocket = [0u8; 81];
    let opp_path_len_pocket =
        get_shortest_path(&pocket, Player::Two, &bfs, &mut opp_path_pocket);

    let inner_t = Move::Wall {
        row: 0,
        col: 0,
        orientation: WallOrientation::Vertical,
    };
    let inner_board = pocket.clone();
    assert!(
        !wall_should_search(
            inner_t,
            &cat_pocket,
            reachable_pocket,
            gap_zone_pocket,
            &inner_board,
            our_dist_pocket,
            opp_dist_pocket,
            &opp_path_pocket,
            opp_path_len_pocket,
            &bfs,
        ),
        "fully buried inner T-wall should be pruned"
    );
}

#[test]
fn useless_t_junction_gets_no_shape_bonus() {
    let mut board = Board::new();
    set_wall(&mut board, 0, 5, WallOrientation::Vertical, true);
    set_wall(&mut board, 1, 5, WallOrientation::Vertical, true);
    let bfs = BfsScratch::new();
    let cat = bfs.build_corridor_attention(&board);
    let t_junction = Move::Wall {
        row: 1,
        col: 5,
        orientation: WallOrientation::Horizontal,
    };
    assert_eq!(
        wall_shape_attention_bonus(&board, t_junction, &cat),
        0,
        "far-side T junction should not get shape attention"
    );
}

#[test]
fn sprint_line_orders_wall_before_lateral_pawn() {

    let seq = ["e2", "e8", "d2", "e7", "d3", "e6", "d4", "e5", "c4", "e4"];
    let mut board = Board::new();
    for m in seq {
        board.apply_algebraic(m);
    }
    let bfs = BfsScratch::new();
    let our = bfs
        .shortest_distance(&board, Player::One)
        .unwrap_or(DIST_PENALTY);
    let opp = bfs
        .shortest_distance(&board, Player::Two)
        .unwrap_or(DIST_PENALTY);
    let cat = bfs.build_corridor_attention(&board);
    let mut opp_path = [0u8; 81];
    let opp_path_len = get_shortest_path(&board, Player::Two, &bfs, &mut opp_path);
    let mut buf = [Move::Pawn { row: 0, col: 0 }; MAX_LEGAL_MOVES];
    let n = collect_search_moves(
        &board,
        &mut buf,
        &bfs,
        &cat,
        &opp_path,
        opp_path_len,
        our,
        opp,
        false,
        true,
    );
    let mut scores = [0i32; MAX_LEGAL_MOVES];
    order_moves(
        &board,
        &mut buf,
        n,
        None,
        None,
        &mut scores,
        our,
        opp,
        &opp_path,
        opp_path_len,
        &bfs,
        &cat,
        &OrderExtras::default(),
        &|_| 0,
        &cat_corridor_order_boost,
    );
    let mut ranked: Vec<_> = (0..n).map(|i| (scores[i], format_move(buf[i]))).collect();
    ranked.sort_by(|a, b| b.0.cmp(&a.0));
    let top_has_wall = ranked
        .iter()
        .take(6)
        .any(|(_, m)| m.ends_with('h') || m.ends_with('v'));
    assert!(
        top_has_wall,
        "a blocking wall should rank in top 6, top={ranked:?}"
    );
}

#[test]
fn sprint_line_includes_blocker_wall_when_behind() {

    let seq = ["e2", "e8", "d2", "e7", "d3", "e6", "d4", "e5", "c4", "e4"];
    let mut board = Board::new();
    for m in seq {
        board.apply_algebraic(m);
    }
    let bfs = BfsScratch::new();
    let our = bfs
        .shortest_distance(&board, Player::One)
        .unwrap_or(DIST_PENALTY);
    let opp = bfs
        .shortest_distance(&board, Player::Two)
        .unwrap_or(DIST_PENALTY);
    assert!(our > opp, "white should be behind in race, W{our} B{opp}");

    let cat = bfs.build_corridor_attention(&board);
    let mut opp_path = [0u8; 81];
    let opp_path_len = get_shortest_path(&board, Player::Two, &bfs, &mut opp_path);
    let mut buf = [Move::Pawn { row: 0, col: 0 }; MAX_LEGAL_MOVES];
    let n = collect_search_moves(
        &board,
        &mut buf,
        &bfs,
        &cat,
        &opp_path,
        opp_path_len,
        our,
        opp,
        false,
        true,
    );
    let walls: Vec<String> = buf[..n]
        .iter()
        .filter(|mv| matches!(mv, Move::Wall { .. }))
        .map(|&mv| format_move(mv))
        .collect();
    assert!(
        !walls.is_empty(),
        "must keep at least one blocking wall when losing the sprint"
    );
}

#[test]
fn mirrored_moves_mirror_back() {
    for col in 0..9u8 {
        let mv = Move::Pawn { row: 3, col };
        assert_eq!(mirror_move(mv), Move::Pawn { row: 3, col: 8 - col });
        assert_eq!(mirror_move(mirror_move(mv)), mv);
    }
    let wall = Move::Wall { row: 2, col: 3, orientation: WallOrientation::Vertical };
    assert_eq!(
        mirror_move(wall),
        Move::Wall { row: 2, col: 5, orientation: WallOrientation::Vertical }
    );
}

#[test]
fn child_depth_by_band() {
    assert_eq!(cat_heat_child_depth(100, 250, 90, 0, &heat_share), 0);
    assert_eq!(cat_heat_child_depth(0, 250, 90, 7, &heat_share), 1);
    assert_eq!(cat_heat_child_depth(95, 250, 90, 7, &heat_share), 1);
    assert_eq!(cat_heat_child_depth(250, 250, 90, 7, &heat_share), 7);
    let cold = |_: i32, _: u16, _: u16, _: u32| HeatShare { band: HeatBand::Cold, scaled: 6 };
    assert_eq!(cat_heat_child_depth(100, 250, 90, 7, &cold), 2);
    let cool = |_: i32, _: u16, _: u16, _: u32| HeatShare { band: HeatBand::Cool, scaled: 9 };
    assert_eq!(cat_heat_child_depth(100, 250, 90, 12, &cool), 4);
    assert_eq!(cat_heat_child_depth(100, 250, 90, 3, &cool), 2);
}

#[test]
fn total_reduction_of_cold_walls() {
    let refs = CatHeatRefs { all: 250, walls: 250, pawns: 100 };
    let wall = Move::Wall { row: 0, col: 0, orientation: WallOrientation::Horizontal };
    let path = [40u8; 81];
    let cold = cat_lmr_total_reduction(wall, 0, refs, 60, 8, 1, &path, 1, false, &heat_share);
    assert_eq!(cold, 6);
    let warm = cat_lmr_total_reduction(wall, 250, refs, 60, 8, 3, &path, 1, false, &heat_share);
    assert_eq!(warm, 0);
    let none = cat_lmr_total_reduction(wall, 0, refs, 60, 1, 3, &path, 1, false, &heat_share);
    assert_eq!(none, 0);
}

#[test]
fn ceilings_and_hot_limits() {
    assert_eq!(cat_v16_lmr_ceiling(None), 800);
    assert_eq!(cat_v16_lmr_ceiling(Some(500)), 500);
    assert_eq!(cat_v16_lmr_ceiling(Some(1000)), 1000);
    assert_eq!(cat_v16_lmr_ceiling(Some(600)), 800);
    assert!(is_lmr_heat_hot(160, 0, 60, 50, &reaches));
    assert!(!is_lmr_heat_hot(159, 0, 60, 50, &reaches));
    assert!(is_lmr_heat_hot(155, 250, 60, 50, &reaches));
    assert!(!is_lmr_heat_hot(154, 250, 60, 50, &reaches));
    let refs = CatHeatRefs { all: 900, walls: 900, pawns: 400 };
    let wall = Move::Wall { row: 0, col: 0, orientation: WallOrientation::Horizontal };
    assert_eq!(cat_v16_lmr_extra_plies(wall, 10, refs, 800, 5, 9, &|_, r, _| u32::from(r)), 8);
    assert_eq!(cat_v16_lmr_extra_plies(wall, 10, refs, 800, 5, 1, &|_, _, _| 5), 0);
    assert_eq!(cat_v16_lmr_extra_plies(wall, 10, refs, 800, 5, 9, &|_, _, _| 3), 3);
}

#[test]
fn known_moves_come_first() {
    let board = Board::new();
    let bfs = BfsScratch::new();
    let mut buf = [Move::Pawn { row: 0, col: 0 }; MAX_LEGAL_MOVES];
    let n = generate_legal_moves_slice(&board, &mut buf, &bfs);
    let before: Vec<Move> = buf[..n].to_vec();
    let cat = bfs.build_corridor_attention(&board);
    let mut opp_path = [0u8; 81];
    let len = get_shortest_path(&board, Player::Two, &bfs, &mut opp_path);
    let mut scores = [0i32; MAX_LEGAL_MOVES];
    let table = Move::Wall { row: 7, col: 7, orientation: WallOrientation::Vertical };
    let book = Move::Wall { row: 0, col: 0, orientation: WallOrientation::Vertical };
    let hint = BookHint { mv: book, stm_bias: -7, priority: 40 };
    order_moves(
        &board,
        &mut buf,
        n,
        Some(table),
        Some(hint),
        &mut scores,
        8,
        8,
        &opp_path,
        len,
        &bfs,
        &cat,
        &OrderExtras::default(),
        &|_| 0,
        &cat_corridor_order_boost,
    );
    let at = buf[..n].iter().position(|&m| m == table).unwrap();
    assert_eq!(scores[at], 10_000);
    let at = buf[..n].iter().position(|&m| m == book).unwrap();
    assert_eq!(scores[at], 9_000 + 40 - 1);
    for mv in &before {
        assert_eq!(buf[..n].iter().filter(|m| *m == mv).count(), 1);
    }
}
