//! Races without walls, their certificates, and games built from boards.

use titanium::ace::certify::certify_board;
use titanium::ace::convert::ace_from_board;
use titanium::ace::game::AceGame;
use titanium::ace::race::{
    aggregate_opponent_child_proofs, exact_race_verdict, hands_empty_race, paths_overlap,
    proposed_hands_empty_race, race_minimax, race_minimax_with_cap, race_state_index,
    separated_pure_race_verdict, turn_adjusted_tempo_advantage, visiting_clear, visiting_set,
    visiting_test, wall_graph_distances, RaceProof, RaceVerdict, RACE_RESOLVER_DEPTH_CAP,
    RACE_STATE_COUNT, RACE_VISITING_WORDS,
};
use titanium::ace::racetable::solve_race_config;
use titanium::movegen::legal::generate_legal_moves;
use titanium::position::board::{Board, Player};
use titanium::position::zobrist::hash_board;
use titanium::util::notation::{algebraic_to_ace, format_move};

/// The converter must reproduce AceGame's winner / pawn cells / distances
/// for the same position reached by replaying moves on both sides.
#[test]
fn converter_matches_replayed_acegame() {
    let line = [
        "e2", "e8", "e3", "e7", "e4", "e6", "d3h", "d6h", "f3h", "f6h",
    ];
    let mut board = Board::new();
    let mut replayed = AceGame::new();
    for m in line {
        board.apply_algebraic(m);
        replayed.make_move(algebraic_to_ace(m));
    }
    let converted = ace_from_board(&board);
    assert_eq!(converted.pawn, replayed.pawn, "pawn cells");
    assert_eq!(converted.wl, replayed.wl, "walls left");
    assert_eq!(converted.turn, replayed.turn, "side to move");
    assert_eq!(converted.hw, replayed.hw, "h-walls");
    assert_eq!(converted.vw, replayed.vw, "v-walls");
    assert_eq!(converted.blocked, replayed.blocked, "blocked edges");
    assert_eq!(converted.hash_lo, replayed.hash_lo, "hash_lo");
    assert_eq!(converted.hash_hi, replayed.hash_hi, "hash_hi");
}

#[test]
fn tempo_race_no_opp_walls_certifies_stm() {
    // One (stm) (3,1) dist 5, Two (5,7) dist 5 — DIFFERENT columns, so the
    // pawns never interact (no jump-tempo gift). Two has 0 walls ⇒ no
    // interdiction; One moves first and wins the independent race by a
    // tempo ⇒ a proven win for One. (Same column would let Two's jump over
    // One steal a tempo and flip the race — that position is NOT certifiable.)
    let mut board = Board::new();
    board.pawns = [(3, 1), (5, 7)];
    board.walls_remaining = [2, 0];
    board.side_to_move = Player::One;
    board.hash = hash_board(&board);
    assert_eq!(certify_board(&board, 5000, 0, None), Some(Player::One));
}

#[test]
fn converter_matches_replay_on_random_positions() {
    // Soundness guard: the converter must reproduce a freshly-replayed
    // AceGame for ARBITRARY reachable positions, not just one line — a wrong
    // blocked[]/pawn/turn would feed the oracle/certificate a wrong board and
    // make it "prove" a win that isn't real. Fuzz many random legal games.

    let mut seed = 0x1234_5678_9abc_def0u64;
    let mut next = || {
        seed ^= seed >> 12;
        seed ^= seed << 25;
        seed ^= seed >> 27;
        seed.wrapping_mul(0x2545_F491_4F6C_DD1D)
    };

    for _ in 0..400 {
        let mut board = Board::new();
        let mut replayed = AceGame::new();
        let plies = 4 + (next() % 30) as usize;
        for _ in 0..plies {
            if board.is_terminal().is_some() {
                break;
            }
            let moves = generate_legal_moves(&board);
            if moves.is_empty() {
                break;
            }
            let mv = moves[(next() as usize) % moves.len()];
            let alg = format_move(mv);
            board.apply_move(mv);
            replayed.make_move(algebraic_to_ace(&alg));
        }
        let converted = ace_from_board(&board);
        assert_eq!(converted.pawn, replayed.pawn, "pawn cells");
        assert_eq!(converted.wl, replayed.wl, "walls left");
        assert_eq!(converted.turn, replayed.turn, "side to move");
        assert_eq!(converted.blocked, replayed.blocked, "blocked edges");
        assert_eq!(converted.hash_lo, replayed.hash_lo, "hash_lo");
        assert_eq!(converted.hash_hi, replayed.hash_hi, "hash_hi");
    }
}

fn race_board(p0: (u8, u8), p1: (u8, u8), stm: Player) -> Board {
    let mut b = Board::new();
    b.pawns = [p0, p1];
    b.walls_remaining = [0, 0];
    b.side_to_move = stm;
    b.hash = hash_board(&b);
    b
}

fn board_pos_from_ace(cell: usize) -> (u8, u8) {
    ((8 - cell / 9) as u8, (cell % 9) as u8)
}

#[test]
fn hands_empty_classifier_matches_exact_when_decisive() {
    let mut decisive = 0usize;
    let mut volatile = 0usize;

    for p0 in 0..81 {
        // Skip already-terminal roots; those are handled by the normal
        // immediate winner path, not by race classification.
        if p0 < 9 {
            continue;
        }
        for p1 in 0..81 {
            if p1 >= 72 || p0 == p1 {
                continue;
            }
            for stm in [Player::One, Player::Two] {
                let board = race_board(board_pos_from_ace(p0), board_pos_from_ace(p1), stm);
                let mut g = ace_from_board(&board);
                let verdict = hands_empty_race(&g);
                if verdict == RaceVerdict::NeedsProof {
                    volatile += 1;
                    continue;
                }

                decisive += 1;
                let exact = match race_minimax(&mut g) {
                    RaceProof::Win => RaceVerdict::Win,
                    RaceProof::Loss => RaceVerdict::Loss,
                    RaceProof::Unknown => RaceVerdict::NeedsProof,
                };
                assert_eq!(
                    verdict, exact,
                    "p0={p0} p1={p1} stm={stm:?} classifier must match exact race solver"
                );
            }
        }
    }

    assert!(decisive > 0, "test must cover deterministic certificates");
    assert!(volatile > 0, "test must cover proof-required close races");
}

#[test]
fn parallel_race_equal_distance_stm_wins() {
    // Different columns ⇒ paths don't overlap; equal distance ⇒ stm wins.
    let g = ace_from_board(&race_board((3, 1), (5, 7), Player::One));
    assert_eq!(hands_empty_race(&g), RaceVerdict::Win);
}

#[test]
fn certify_board_no_walls_uses_race_winner_and_side_filter() {
    let board = race_board((3, 1), (5, 7), Player::One);
    assert_eq!(certify_board(&board, 1, 0, None), Some(Player::One));
    assert_eq!(
        certify_board(&board, 1, 0, Some(Player::One)),
        Some(Player::One)
    );
    assert_eq!(certify_board(&board, 1, 0, Some(Player::Two)), None);
}

#[test]
fn parallel_race_opponent_closer_stm_loses() {
    // Different columns (no overlap); One dist 7, Two dist 6 ⇒ One loses.
    let g = ace_from_board(&race_board((1, 1), (6, 7), Player::One));
    assert_eq!(hands_empty_race(&g), RaceVerdict::Loss);
}

#[test]
fn same_column_close_race_needs_proof() {
    // Same column ⇒ paths overlap; equal distance (lead ≤1) ⇒ volatile.
    let g = ace_from_board(&race_board((3, 4), (5, 4), Player::One));
    assert_eq!(hands_empty_race(&g), RaceVerdict::NeedsProof);
}

#[test]
fn two_tempo_lead_is_deterministic_even_when_overlapping() {
    // Same column (overlap) but One dist 2 vs Two dist 5 ⇒ lead ≥2 absorbs
    // any jump ⇒ deterministic win, no proof.
    let g = ace_from_board(&race_board((6, 4), (5, 4), Player::One));
    assert_eq!(hands_empty_race(&g), RaceVerdict::Win);
}

#[test]
fn startpos_is_not_certifiable() {
    // No one can prove a win from the opening within a small budget.
    let board = Board::new();
    assert_eq!(certify_board(&board, 5000, 0, None), None);
}

#[test]
fn reached_goal_certifies_immediately() {
    // Player One on the goal row is a trivially-proven (already-won) cert.
    let mut board = Board::new();
    board.pawns[0] = (8, 4);
    assert_eq!(certify_board(&board, 1000, 0, None), Some(Player::One));
}


#[test]
fn a_win_in_one_takes_one_node() {
    let mut board = Board::new();
    board.pawns = [(7, 4), (4, 0)];
    assert_eq!(certify_board(&board, 0, 0, Some(Player::One)), None);
    assert_eq!(certify_board(&board, 1, 0, Some(Player::One)), Some(Player::One));
    assert_eq!(certify_board(&board, 1, 0, None), Some(Player::One));
}

#[derive(Default, Debug)]
struct RaceAuditStats {
    states_checked: usize,
    exact_white_wins: usize,
    exact_black_wins: usize,
    exact_draws: usize,
    current_false_wins: usize,
    current_false_losses: usize,
    proposed_false_wins: usize,
    proposed_false_losses: usize,
    current_unnecessary_extensions: usize,
    proposed_avoids_extension: usize,
    current_extends_proposed_shortcuts: usize,
}

fn audit_zero_wall_state(
    p0: usize,
    p1: usize,
    stm: Player,
    oracle_table: &[i16],
    stats: &mut RaceAuditStats,
) -> Option<(RaceVerdict, RaceVerdict, RaceVerdict, i32)> {
    if p0 == p1 || p0 < 9 || p1 >= 72 {
        return None;
    }
    let board = race_board(board_pos_from_ace(p0), board_pos_from_ace(p1), stm);
    let g = ace_from_board(&board);
    let id = (p0 * 81 + p1) * 2 + (stm as usize);
    let exact_val = oracle_table[id];
    let exact = match exact_val.cmp(&0) {
        std::cmp::Ordering::Greater => RaceVerdict::Win,
        std::cmp::Ordering::Less => RaceVerdict::Loss,
        std::cmp::Ordering::Equal => RaceVerdict::NeedsProof,
    };
    let current = hands_empty_race(&g);
    let proposed = proposed_hands_empty_race(&g);
    let adj = turn_adjusted_tempo_advantage(&g);

    stats.states_checked += 1;
    if exact_val > 0 {
        if stm == Player::One {
            stats.exact_white_wins += 1;
        } else {
            stats.exact_black_wins += 1;
        }
    } else if exact_val < 0 {
        if stm == Player::One {
            stats.exact_black_wins += 1;
        } else {
            stats.exact_white_wins += 1;
        }
    } else {
        stats.exact_draws += 1;
    }

    if current == RaceVerdict::Win && exact != RaceVerdict::Win {
        stats.current_false_wins += 1;
    }
    if current == RaceVerdict::Loss && exact != RaceVerdict::Loss {
        stats.current_false_losses += 1;
    }
    if proposed == RaceVerdict::Win && exact != RaceVerdict::Win {
        stats.proposed_false_wins += 1;
    }
    if proposed == RaceVerdict::Loss && exact != RaceVerdict::Loss {
        stats.proposed_false_losses += 1;
    }
    if current == RaceVerdict::NeedsProof && proposed != RaceVerdict::NeedsProof {
        stats.proposed_avoids_extension += 1;
        if proposed == exact {
            stats.current_unnecessary_extensions += 1;
        }
    }
    if current == RaceVerdict::NeedsProof
        && (proposed == RaceVerdict::Win || proposed == RaceVerdict::Loss)
    {
        stats.current_extends_proposed_shortcuts += 1;
    }

    Some((exact, current, proposed, adj))
}

#[test]
fn exhaustive_zero_wall_turn_adjusted_audit() {

    let oracle_table = solve_race_config(&AceGame::new());
    let mut stats = RaceAuditStats::default();
    let mut counterexamples: Vec<String> = Vec::new();

    for p0 in 0..81 {
        for p1 in 0..81 {
            for stm in [Player::One, Player::Two] {
                let Some((exact, current, proposed, adj)) =
                    audit_zero_wall_state(p0, p1, stm, &oracle_table, &mut stats)
                else {
                    continue;
                };
                if proposed == RaceVerdict::Win && exact != RaceVerdict::Win {
                    counterexamples.push(format!(
                        "proposed false win p0={p0} p1={p1} stm={stm:?} adj={adj} exact={exact:?} current={current:?}"
                    ));
                }
                if proposed == RaceVerdict::Loss && exact != RaceVerdict::Loss {
                    counterexamples.push(format!(
                        "proposed false loss p0={p0} p1={p1} stm={stm:?} adj={adj} exact={exact:?} current={current:?}"
                    ));
                }
            }
        }
    }

    assert!(
        counterexamples.is_empty(),
        "proposed rule has {} false wins and {} false losses: {:?}",
        stats.proposed_false_wins,
        stats.proposed_false_losses,
        counterexamples
    );
    assert_eq!(stats.proposed_false_wins, 0);
    assert_eq!(stats.proposed_false_losses, 0);
    assert!(stats.states_checked > 10_000);
}

#[test]
fn turn_adjusted_examples_from_spec() {
    // Find boards with the distances in question.
    let mut plus_one_white_stm: Option<(usize, usize)> = None;
    let mut plus_one_black_stm: Option<(usize, usize)> = None;
    for p0 in 9..81 {
        for p1 in 0..72 {
            if p0 == p1 {
                continue;
            }
            let g_w = ace_from_board(&race_board(
                board_pos_from_ace(p0),
                board_pos_from_ace(p1),
                Player::One,
            ));
            let (wd, bd) = wall_graph_distances(&g_w);
            if bd as i32 - wd as i32 == 1 && turn_adjusted_tempo_advantage(&g_w) == 2 {
                plus_one_white_stm = Some((p0, p1));
            }
            let g_b = ace_from_board(&race_board(
                board_pos_from_ace(p0),
                board_pos_from_ace(p1),
                Player::Two,
            ));
            if bd as i32 - wd as i32 == 1 && turn_adjusted_tempo_advantage(&g_b) == 0 {
                plus_one_black_stm = Some((p0, p1));
            }
        }
    }
    let (p0, p1) = plus_one_white_stm.expect("white +1 lead example");
    let g = ace_from_board(&race_board(
        board_pos_from_ace(p0),
        board_pos_from_ace(p1),
        Player::One,
    ));
    assert_eq!(turn_adjusted_tempo_advantage(&g), 2);
    assert_eq!(hands_empty_race(&g), RaceVerdict::Win);

    let (p0, p1) = plus_one_black_stm.expect("white +1 lead black-to-move example");
    let g = ace_from_board(&race_board(
        board_pos_from_ace(p0),
        board_pos_from_ace(p1),
        Player::Two,
    ));
    assert_eq!(turn_adjusted_tempo_advantage(&g), 0);
    assert_eq!(hands_empty_race(&g), RaceVerdict::NeedsProof);

    // Equal distance, White to move → adj=1 → resolve (same column overlaps).
    let g = ace_from_board(&race_board((3, 4), (5, 4), Player::One));
    assert_eq!(turn_adjusted_tempo_advantage(&g), 1);
    assert_eq!(hands_empty_race(&g), RaceVerdict::NeedsProof);

    // Equal distance, Black to move → adj=-1 → resolve.
    let g = ace_from_board(&race_board((3, 4), (5, 4), Player::Two));
    assert_eq!(turn_adjusted_tempo_advantage(&g), -1);
    assert_eq!(hands_empty_race(&g), RaceVerdict::NeedsProof);

    // Equal distance, separated paths, White to move → pure race win.
    let g = ace_from_board(&race_board((3, 1), (5, 7), Player::One));
    assert_eq!(turn_adjusted_tempo_advantage(&g), 1);
    assert_eq!(hands_empty_race(&g), RaceVerdict::Win);
}

#[test]
fn separated_pure_race_matches_oracle_when_no_overlap() {
    let oracle_table = solve_race_config(&AceGame::new());
    for p0 in 9..81 {
        for p1 in 0..72 {
            if p0 == p1 {
                continue;
            }
            for stm in [Player::One, Player::Two] {
                let board = race_board(board_pos_from_ace(p0), board_pos_from_ace(p1), stm);
                let g = ace_from_board(&board);
                let mut d0 = [0u8; 81];
                let mut d1 = [0u8; 81];
                g.compute_dist(0, &mut d0);
                g.compute_dist(1, &mut d1);
                if paths_overlap(&g, &d0, &d1) {
                    continue;
                }
                let id = (p0 * 81 + p1) * 2 + (stm as usize);
                if oracle_table[id] == 0 {
                    continue;
                }
                let pure = separated_pure_race_verdict(&g);
                let exact = if oracle_table[id] > 0 {
                    RaceVerdict::Win
                } else {
                    RaceVerdict::Loss
                };
                assert_eq!(
                    pure, exact,
                    "separated pure race p0={p0} p1={p1} stm={stm:?}"
                );
            }
        }
    }
}

#[test]
fn benchmark_extension_avoidance_vs_current() {
    let oracle_table = solve_race_config(&AceGame::new());
    let mut stats = RaceAuditStats::default();
    for p0 in 9..81 {
        for p1 in 0..72 {
            if p0 == p1 {
                continue;
            }
            for stm in [Player::One, Player::Two] {
                let _ = audit_zero_wall_state(p0, p1, stm, &oracle_table, &mut stats);
            }
        }
    }
    assert!(stats.states_checked > 10_000);
}


#[test]
fn race_state_key_distinguishes_side_to_move() {
    let k0 = race_state_index(40, 50, 0);
    let k1 = race_state_index(40, 50, 1);
    assert_ne!(k0, k1);
    assert_eq!(k0, race_state_index(40, 50, 0));
}

#[test]
fn race_state_index_fits_visiting_bitset() {
    assert_eq!(RACE_STATE_COUNT, 13_122);
    assert_eq!(RACE_VISITING_WORDS, 206);
    assert_eq!(race_state_index(80, 80, 1), 13_121);
    for p0 in 0..81 {
        for p1 in 0..81 {
            for turn in 0..2 {
                let idx = race_state_index(p0, p1, turn);
                assert!(
                    idx < RACE_VISITING_WORDS * 64,
                    "p0={p0} p1={p1} turn={turn} idx={idx}"
                );
            }
        }
    }
    let mut visiting = [0u64; RACE_VISITING_WORDS];
    visiting_set(&mut visiting, 13_121);
    assert!(visiting_test(&visiting, 13_121));
    visiting_clear(&mut visiting, 13_121);
    assert!(!visiting_test(&visiting, 13_121));
}

#[test]
fn aggregate_cycle_plus_winning_move() {
    assert_eq!(
        aggregate_opponent_child_proofs(&[RaceProof::Unknown, RaceProof::Loss]),
        RaceProof::Win
    );
}

#[test]
fn aggregate_unknown_prevents_false_loss() {
    assert_eq!(
        aggregate_opponent_child_proofs(&[RaceProof::Win, RaceProof::Unknown]),
        RaceProof::Unknown
    );
}

#[test]
fn aggregate_all_opponent_losses_is_stm_loss() {
    assert_eq!(
        aggregate_opponent_child_proofs(&[RaceProof::Win, RaceProof::Win]),
        RaceProof::Loss
    );
}

#[test]
fn race_active_path_repetition_returns_unknown() {
    let mut visiting = [0u64; RACE_VISITING_WORDS];
    let idx = race_state_index(40, 50, 0);
    visiting_set(&mut visiting, idx);
    assert!(visiting_test(&visiting, idx));
}

#[test]
fn race_depth_cap_returns_unknown() {
    let board = race_board((3, 4), (5, 4), Player::One);
    let mut g = ace_from_board(&board);
    assert_eq!(
        race_minimax_with_cap(&mut g, 0),
        RaceProof::Unknown,
        "depth cap must not certify"
    );
}

#[test]
fn race_resolver_max_depth_on_empty_board() {
    let mut max_depth = 0u32;
    for p0 in 9..81 {
        for p1 in 0..72 {
            if p0 == p1 {
                continue;
            }
            for stm in [Player::One, Player::Two] {
                let board = race_board(board_pos_from_ace(p0), board_pos_from_ace(p1), stm);
                let mut g = ace_from_board(&board);
                if hands_empty_race(&g) != RaceVerdict::NeedsProof {
                    continue;
                }
                let mut visiting = [0u64; RACE_VISITING_WORDS];
                max_depth = max_depth.max(race_rec_depth_only(&mut g, &mut visiting, 0));
            }
        }
    }
    assert!(max_depth <= RACE_RESOLVER_DEPTH_CAP);
    assert!(max_depth > 0);
}

fn race_rec_depth_only(g: &mut AceGame, visiting: &mut [u64; RACE_VISITING_WORDS], cur: u32) -> u32 {
    let stm = g.turn;
    let pawn = g.pawn[stm];
    if (stm == 0 && pawn < 9) || (stm == 1 && pawn >= 72) {
        return cur;
    }
    let idx = race_state_index(g.pawn[0], g.pawn[1], g.turn);
    if visiting_test(visiting, idx) {
        return cur;
    }
    visiting_set(visiting, idx);
    let mut d_goal = [255u8; 81];
    g.compute_dist(stm, &mut d_goal);
    let my_dist = d_goal[pawn];
    let mut buf = [0i16; 16];
    let cnt = g.gen_pawn_moves(&mut buf, 0);
    let mut best = cur;
    for i in 0..cnt {
        let to = buf[i] as usize;
        if d_goal[to] < my_dist {
            g.make_move(buf[i]);
            best = best.max(race_rec_depth_only(g, visiting, cur + 1));
            g.unmake_move();
        }
    }
    visiting_clear(visiting, idx);
    best
}

/// The rule that counts raw tempi.
fn old_raw_tempo_race(g: &AceGame) -> RaceVerdict {
    let mut d0 = [0u8; 81];
    let mut d1 = [0u8; 81];
    g.compute_dist(0, &mut d0);
    g.compute_dist(1, &mut d1);
    let big0 = d0[g.pawn[0]];
    let big1 = d1[g.pawn[1]];
    if big0 == 255 || big1 == 255 {
        return RaceVerdict::NeedsProof;
    }
    let (our, opp) = if g.turn == 0 {
        (big0 as i32, big1 as i32)
    } else {
        (big1 as i32, big0 as i32)
    };
    let tempo = opp - our;
    if tempo > 1 {
        return RaceVerdict::Win;
    }
    if tempo < -1 {
        return RaceVerdict::Loss;
    }
    if paths_overlap(g, &d0, &d1) {
        return RaceVerdict::NeedsProof;
    }
    if tempo < 0 {
        RaceVerdict::Loss
    } else {
        RaceVerdict::Win
    }
}

#[test]
fn seventy_two_turn_adjusted_shortcuts_skip_resolver() {
    let mut shortcuts = 0usize;
    for p0 in 9..81 {
        for p1 in 0..72 {
            if p0 == p1 {
                continue;
            }
            for stm in [Player::One, Player::Two] {
                let g = ace_from_board(&race_board(
                    board_pos_from_ace(p0),
                    board_pos_from_ace(p1),
                    stm,
                ));
                if old_raw_tempo_race(&g) != RaceVerdict::NeedsProof {
                    continue;
                }
                if hands_empty_race(&g) == RaceVerdict::NeedsProof {
                    continue;
                }
                shortcuts += 1;
            }
        }
    }
    assert_eq!(shortcuts, 72, "shortcuts over the raw tempo rule");
}

#[derive(Default, Debug)]
struct ExhaustiveResolverAudit {
    volatile: usize,
    exact_win: usize,
    exact_loss: usize,
    resolver_win: usize,
    resolver_loss: usize,
    resolver_unknown: usize,
    false_win: usize,
    false_loss: usize,
}

#[test]
fn exhaustive_resolver_audit_no_false_certificates() {
    let oracle_table = solve_race_config(&AceGame::new());
    let mut audit = ExhaustiveResolverAudit::default();

    for p0 in 9..81 {
        for p1 in 0..72 {
            if p0 == p1 {
                continue;
            }
            for stm in [Player::One, Player::Two] {
                let board = race_board(board_pos_from_ace(p0), board_pos_from_ace(p1), stm);
                let mut g = ace_from_board(&board);
                let id = (p0 * 81 + p1) * 2 + (stm as usize);
                let exact_val = oracle_table[id];
                let classifier = hands_empty_race(&g);

                if classifier != RaceVerdict::NeedsProof {
                    if matches!(classifier, RaceVerdict::Win) && exact_val <= 0 {
                        audit.false_win += 1;
                    }
                    if matches!(classifier, RaceVerdict::Loss) && exact_val >= 0 {
                        audit.false_loss += 1;
                    }
                    continue;
                }

                audit.volatile += 1;
                if exact_val > 0 {
                    audit.exact_win += 1;
                } else if exact_val < 0 {
                    audit.exact_loss += 1;
                }

                match race_minimax(&mut g) {
                    RaceProof::Win => {
                        audit.resolver_win += 1;
                        if exact_val <= 0 {
                            audit.false_win += 1;
                        }
                    }
                    RaceProof::Loss => {
                        audit.resolver_loss += 1;
                        if exact_val >= 0 {
                            audit.false_loss += 1;
                        }
                    }
                    RaceProof::Unknown => audit.resolver_unknown += 1,
                }
            }
        }
    }

    assert_eq!(audit.false_win, 0);
    assert_eq!(audit.false_loss, 0);
    assert!(audit.volatile > 0);
}

#[test]
fn exact_verdicts_follow_the_table() {
    let table = solve_race_config(&AceGame::new());
    let win = ace_from_board(&race_board((7, 0), (7, 8), Player::One));
    let loss = ace_from_board(&race_board((1, 0), (1, 8), Player::One));
    assert_eq!(exact_race_verdict(&win, &table), RaceVerdict::Win);
    assert_eq!(table[(win.pawn[0] * 81 + win.pawn[1]) * 2], 1);
    assert_eq!(exact_race_verdict(&loss, &table), RaceVerdict::Loss);
    assert_eq!(table[(loss.pawn[0] * 81 + loss.pawn[1]) * 2], -2);
}
