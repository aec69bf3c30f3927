//! Wall masks and pawn tables.

use titanium::movegen::legal::{
    can_wall_block_topology, generate_pawn_moves_scalar_for, wall_collides,
};
use titanium::movegen::o1::lookup::{
    generate_pawn_moves_lean_lut, generate_pawn_moves_o1, generate_wall_candidates_o1,
    legal_pawn_move_mask, pack_wall_key, pawn_slot_mask, wall_collision_clear_h_mask,
    wall_collision_clear_v_mask, wall_masks, wall_needs_flood_h_mask, wall_needs_flood_v_mask,
    wall_physically_legal_o1,
};
use titanium::movegen::o1::runtime::{build_from_discovery, PawnTables};
use titanium::position::board::{Board, Move, Player, WallOrientation};
use titanium::util::grid::square_index;

fn scalar_mask(t: &PawnTables, board: &Board, player: Player, sq: u8) -> u16 {
    let mut moves = [Move::Pawn { row: 0, col: 0 }; 8];
    let n = generate_pawn_moves_scalar_for(board, player, &mut moves);
    let catalog = &t.catalog[sq as usize];
    let mut mask = 0u16;
    for m in &moves[..n] {
        if let Move::Pawn { row, col } = m {
            let d = square_index(*row, *col);
            for (slot, &sq_id) in catalog.iter().enumerate() {
                if sq_id != 255 && sq_id == d {
                    mask |= 1 << slot;
                    break;
                }
            }
        }
    }
    mask
}

#[test]
fn o1_pawn_matches_scalar_startpos() {
    let t = build_from_discovery();
    let b = Board::new();
    for player in [Player::One, Player::Two] {
        let side = player as usize;
        let sq = square_index(b.pawns[side].0, b.pawns[side].1);
        assert_eq!(
            legal_pawn_move_mask(&t, &b, side, sq),
            scalar_mask(&t, &b, player, sq),
            "{player:?}"
        );
    }
}

#[test]
fn o1_pawn_matches_scalar_walls() {
    let t = build_from_discovery();
    let mut b = Board::new();
    b.horizontal_walls = 0x00_00_0A_00_14_00;
    b.vertical_walls = 0x01_02_04_00;
    for player in [Player::One, Player::Two] {
        let side = player as usize;
        let sq = square_index(b.pawns[side].0, b.pawns[side].1);
        assert_eq!(
            legal_pawn_move_mask(&t, &b, side, sq),
            scalar_mask(&t, &b, player, sq)
        );
    }
}

#[test]
fn all_wall_slots_fit_8_bits() {
    let t = build_from_discovery();
    for sq in 0u8..81 {
        for ek in 0u8..5 {
            if t.layer_valid[sq as usize][ek as usize] == 0 {
                continue;
            }
            let max = t.wall_combo_count[sq as usize][ek as usize];
            assert!(
                max <= 256,
                "sq {sq} enemy {ek}: {max} combos need >8 wall bits"
            );
            let nw = t.wall_slot_count[sq as usize][ek as usize];
            assert!(nw <= 12, "sq {sq} enemy {ek}: {nw} wall slots");
        }
    }
}

#[test]
fn wall_physical_matches_scalar_collides() {
    let b = Board::new();
    for hr in 0..8u8 {
        for hc in 0..8u8 {
            let o1 = wall_physically_legal_o1(&b, hr, hc, true);
            let scalar = !wall_collides(
                &b,
                hr,
                hc,
                WallOrientation::Horizontal,
            );
            assert_eq!(o1, scalar, "h {hr},{hc}");
        }
    }
}

fn scalar_collision_clear_h_mask(board: &Board) -> u64 {
    let mut m = 0u64;
    for r in 0..8u8 {
        for c in 0..8u8 {
            if !wall_collides(
                board,
                r,
                c,
                WallOrientation::Horizontal,
            ) {
                m |= 1 << ((r as u64) * 8 + c as u64);
            }
        }
    }
    m
}

#[test]
fn wall_masks_agrees_with_split_masks() {
    let boards = [
        Board::new(),
        {
            let mut b = Board::new();
            b.horizontal_walls = 0x00_00_0A_00_14_00;
            b.vertical_walls = 0x01_02_04_00;
            b
        },
    ];
    for b in &boards {
        let m = wall_masks(b);
        assert_eq!(m.l12_h, !b.horizontal_walls & wall_collision_clear_h_mask(b));
        assert_eq!(m.l12_v, !b.vertical_walls & wall_collision_clear_v_mask(b));
        assert_eq!(m.topo_h, wall_needs_flood_h_mask(b));
        assert_eq!(m.topo_v, wall_needs_flood_v_mask(b));
    }
}

#[test]
fn collision_clear_mask_matches_scalar() {
    let boards = [
        Board::new(),
        {
            let mut b = Board::new();
            b.horizontal_walls = 0x00_00_0A_00_14_00;
            b.vertical_walls = 0x01_02_04_00;
            b
        },
    ];
    for b in &boards {
        assert_eq!(
            wall_collision_clear_h_mask(b),
            scalar_collision_clear_h_mask(b)
        );
    }
}

fn scalar_topo_h_mask(board: &Board) -> u64 {
    let mut m = 0u64;
    for r in 0..8u8 {
        for c in 0..8u8 {
            if can_wall_block_topology(
                board,
                r,
                c,
                WallOrientation::Horizontal,
            ) {
                m |= 1 << ((r as u64) * 8 + c as u64);
            }
        }
    }
    m
}

fn scalar_topo_v_mask(board: &Board) -> u64 {
    let mut m = 0u64;
    for r in 0..8u8 {
        for c in 0..8u8 {
            if can_wall_block_topology(
                board,
                r,
                c,
                WallOrientation::Vertical,
            ) {
                m |= 1 << ((r as u64) * 8 + c as u64);
            }
        }
    }
    m
}

#[test]
fn topo_needs_flood_matches_scalar() {
    let boards = [
        Board::new(),
        {
            let mut b = Board::new();
            b.horizontal_walls = 0x00_00_0A_00_14_00;
            b.vertical_walls = 0x01_02_04_00;
            b
        },
        {
            let mut b = Board::new();
            b.horizontal_walls = 0xFF_FF_FF_FF_FF_FF;
            b.vertical_walls = 0xFF_FF_FF_FF_FF_FF;
            b
        },
    ];
    for b in &boards {
        assert_eq!(wall_needs_flood_h_mask(b), scalar_topo_h_mask(b), "h topo");
        assert_eq!(wall_needs_flood_v_mask(b), scalar_topo_v_mask(b), "v topo");
    }
}

#[test]
fn topo_needs_flood_exhaustive_low_wall_count() {
    for hw in 0u64..64 {
        for vw in 0u64..64 {
            if hw.count_ones() + vw.count_ones() > 6 {
                continue;
            }
            let mut b = Board::new();
            b.horizontal_walls = hw;
            b.vertical_walls = vw;
            assert_eq!(
                wall_needs_flood_h_mask(&b),
                scalar_topo_h_mask(&b),
                "hw={hw:#x} vw={vw:#x} h"
            );
            assert_eq!(
                wall_needs_flood_v_mask(&b),
                scalar_topo_v_mask(&b),
                "hw={hw:#x} vw={vw:#x} v"
            );
        }
    }
}

#[test]
fn tables_agree_with_stepwise_masks_on_every_square() {
    let t = build_from_discovery();
    let mut b = Board::new();
    b.horizontal_walls = 0x00_00_0A_00_14_00;
    b.vertical_walls = 0x01_02_04_00;
    let mut seen = 0;
    for sq in 0u8..81 {
        for opp in 0u8..81 {
            if opp == sq {
                continue;
            }
            b.pawns = [(sq / 9, sq % 9), (opp / 9, opp % 9)];
            assert_eq!(legal_pawn_move_mask(&t, &b, 0, sq), pawn_slot_mask(&b, 0, sq));
            seen += 1;
        }
    }
    assert_eq!(seen, 6480);
}

#[test]
fn wall_key_of_an_empty_board_is_the_first() {
    let t = build_from_discovery();
    let b = Board::new();
    for sq in 0u8..81 {
        assert_eq!(pack_wall_key(&t, &b, sq, 0), 0);
    }
    let mut walled = Board::new();
    walled.horizontal_walls = 1 << 4;
    assert_ne!(pack_wall_key(&t, &walled, 4, 0), 0);
}

#[test]
fn table_generators_list_catalog_order() {
    let t = build_from_discovery();
    let mut b = Board::new();
    b.pawns = [(4, 4), (5, 4)];
    let mut out = [Move::Pawn { row: 0, col: 0 }; 8];
    let n = generate_pawn_moves_o1(&t, &b, &mut out);
    let expect = [(3, 4), (4, 5), (4, 3), (6, 4)];
    assert_eq!(n, 4);
    for i in 0..n {
        assert_eq!(out[i], Move::Pawn { row: expect[i].0, col: expect[i].1 });
    }
    let mut lean = [Move::Pawn { row: 0, col: 0 }; 8];
    assert_eq!(generate_pawn_moves_lean_lut(&t, &b, &mut lean), 4);
    assert_eq!(lean, out);
}

#[test]
fn wall_candidates_are_listed_in_slot_order() {
    let mut b = Board::new();
    b.horizontal_walls = 1 << 9;
    let mut out = [(9u8, 9u8); 64];
    let n = generate_wall_candidates_o1(&b, true, &mut out);
    assert_eq!(n, 61);
    assert_eq!(out[8], (1, 3));
    assert_eq!(out[61], (9, 9));
    assert_eq!(generate_wall_candidates_o1(&b, false, &mut out), 63);
}
