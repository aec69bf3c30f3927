//! Planned reductions.

use std::collections::{HashMap, HashSet};

use titanium::ace::order::ace_graduated_lmr_reduction;
use titanium::cat::constants::CAT_COLD_CM;
use titanium::cat::depth::is_cat_hot_corridor;
use titanium::cat::heat::build_impact_heatmap;
use titanium::cat::moves::move_impact_heat;
use titanium::movegen::legal::{generate_legal_moves_slice, MAX_LEGAL_MOVES};
use titanium::path::bfs::BfsScratch;
use titanium::position::board::{Board, Move};
use titanium::search::cat_index_lmr::{
    apply_lmr_path_correction, cat_attention, cat_index_lmr_reduction, cat_index_lmr_with_path,
    compute_race_gain, lmr_aggression_percent, lmr_aggression_tuning_percent,
    lmr_thread_aggression_enabled, CurvePoint, Ratio,
};
use titanium::search::lmr_viz::{
    lmr_snapshot, merge_combined_plans, plan_root_lmr, summarize_plans, LmrProfile, RootLmrPlan,
    StageInput,
};
use titanium::search::v16_lmr::{plan_v16_pawn_lmr, plan_v16_wall_lmr, V16HardOverride};
use titanium::util::notation::format_move;

const TIME_REFERENCE_MS: u64 = 2000;

fn ratio(part: u32) -> Ratio {
    Ratio { part, whole: 100 }
}

fn lmr_tuning_to_aggression_g(tuning_percent: i32) -> f64 {
    let t = tuning_percent.clamp(-500, 150) as f64;
    if t >= 150.0 {
        return 0.0;
    }
    if t >= 100.0 {
        return (150.0 - t) / 50.0;
    }
    if t <= -500.0 {
        return 1.0;
    }
    if t < 0.0 {
        return 1.0 + (-t / 500.0) * 0.35;
    }
    1.0
}

fn move_index_pressure(move_rank: usize, move_count: usize) -> f64 {
    if move_count <= 1 || move_rank <= 1 {
        return 0.0;
    }
    let k = move_rank.min(move_count) as f64;
    let n = move_count as f64;
    (k.ln() / n.ln()).clamp(0.0, 1.0)
}

fn curve(p: CurvePoint) -> u32 {
    let g = lmr_tuning_to_aggression_g(p.tuning_percent);
    let index = move_index_pressure(p.move_rank, p.move_count);
    let total = if p.attention.whole == 0 {
        g * index
    } else {
        let attention = p.attention.part as f64 / p.attention.whole as f64;
        g * ((1.0 - attention) / 0.9).powi(2) * index
    }
    .clamp(0.0, 1.0);
    (p.max_reduction as f64 * total).round() as u32
}

fn reaches(cat_cm: i32, cat_max: u16, cold_cm: u16, pct: u16) -> bool {
    fraction(cat_cm, cat_max, cold_cm) * 100.0 >= pct as f32
}

fn fraction(cat_cm: i32, cat_max: u16, cold_cm: u16) -> f32 {
    if cat_max <= cold_cm {
        return if cat_cm > i32::from(cold_cm) { 1.0 } else { 0.0 };
    }
    ((cat_cm.max(0) as f32 - cold_cm as f32) / (cat_max as f32 - cold_cm as f32)).clamp(0.0, 1.0)
}

fn boost(cat_cm: i32, cat_max: u16, cold_cm: u16) -> i32 {
    (fraction(cat_cm, cat_max, cold_cm) * 16_000.0).round() as i32
}

fn profile(x: StageInput) -> LmrProfile {
    if x.no_moves {
        LmrProfile { cold_cm: 50, hot_ratio_pct: 70 }
    } else {
        LmrProfile { cold_cm: 60, hot_ratio_pct: 72 }
    }
}

#[test]
fn a_position_without_moves_has_a_profile() {
    let mut board = Board::new();
    board.pawns[0] = (8, 4);
    board.pawns[1] = (4, 4);
    let bfs = BfsScratch::new();
    let (chosen, plans) =
        plan_root_lmr(&board, &bfs, 5, TIME_REFERENCE_MS, &profile, &reaches, &boost);
    assert!(plans.is_empty());
    assert_eq!(chosen, LmrProfile { cold_cm: 50, hot_ratio_pct: 70 });
}

fn root_plans(board: &Board, depth: u32) -> Vec<RootLmrPlan> {
    let bfs = BfsScratch::new();
    plan_root_lmr(board, &bfs, depth, TIME_REFERENCE_MS, &profile, &reaches, &boost).1
}

#[test]
fn ace_baseline_matches_v13_schedule() {
    assert_eq!(ace_graduated_lmr_reduction(4, 5), 1);
    assert_eq!(ace_graduated_lmr_reduction(12, 5), 2);
    assert_eq!(ace_graduated_lmr_reduction(24, 6), 3);
}

#[test]
fn dead_tail_forces_depth_one() {
    let p = plan_v16_wall_lmr(8, 10, 9, ratio(5), 1, 0);
    assert_eq!(p.hard_override, V16HardOverride::DeadTail);
    assert_eq!(p.child_depth_used, 1);
    assert_eq!(p.final_reduction, 8);
}

#[test]
fn rear_no_delay_wall_forces_depth_one() {
    let p = plan_v16_wall_lmr(8, 10, 9, ratio(5), 0, 0);
    assert_eq!(p.hard_override, V16HardOverride::BackwardMove);
    assert_eq!(p.child_depth_used, 1);
    assert_eq!(p.final_reduction, 8);
}

#[test]
fn forward_touching_wall_never_backward_culled() {
    let p = plan_v16_wall_lmr(8, 10, 9, ratio(50), 0, 0);
    assert_eq!(p.hard_override, V16HardOverride::Unforced);
    assert!(p.child_depth_used > 1);
}

#[test]
fn self_path_wall_stays_graded() {
    let p = plan_v16_wall_lmr(8, 10, 9, ratio(50), 0, 2);
    assert_eq!(p.hard_override, V16HardOverride::Unforced);
    assert!(p.child_depth_used > 1);
}

#[test]
fn backward_pawn_forces_depth_one() {
    let p = plan_v16_pawn_lmr(3, 8, 7, -1).expect("backwards");
    assert_eq!(p.hard_override, V16HardOverride::BackwardMove);
    assert_eq!(p.child_depth_used, 1);
}

#[test]
fn sideways_pawn_not_reduced() {
    assert!(plan_v16_pawn_lmr(3, 8, 7, 0).is_none());
}

#[test]
fn names_of_overrides() {
    assert_eq!(V16HardOverride::Unforced.as_str(), "none");
    assert_eq!(V16HardOverride::DeadTail.as_str(), "deadTail");
    assert_eq!(V16HardOverride::BackwardMove.as_str(), "backwardMove");
}

#[test]
fn tail_cutoff_uses_max_legal_move_impact() {
    let hmax = 621u32;
    let d = 10u32;
    let rank = 8usize;
    let n = 20usize;

    let dead = cat_index_lmr_reduction(d, rank, n, 40, hmax, 0, false, 2, &curve);
    let fringe = cat_index_lmr_reduction(d, rank, n, 77, hmax, 0, false, 2, &curve);
    let core = cat_index_lmr_reduction(d, rank, n, 400, hmax, 0, false, 2, &curve);

    assert_eq!(dead, 10);
    assert!(dead > fringe, "dead={dead} fringe={fringe}");
    assert!(fringe > core, "core={core} fringe={fringe}");
}

#[test]
fn hottest_move_keeps_full_depth_at_front() {
    let r = cat_index_lmr_reduction(10, 1, 20, 621, 621, 0, false, 2, &curve);
    assert_eq!(r, 0);
}

#[test]
fn skipped_and_shallow_skip_reduction() {
    assert_eq!(cat_index_lmr_reduction(1, 5, 10, 10, 100, 0, false, 2, &curve), 0);
    assert_eq!(cat_index_lmr_reduction(10, 1, 10, 10, 100, 0, true, 2, &curve), 0);
    assert_eq!(cat_index_lmr_reduction(10, 3, 10, 10, 100, 0, false, 5, &curve), 0);
}

#[test]
fn tuning_150_disables_reduction() {
    assert_eq!(lmr_tuning_to_aggression_g(150), 0.0);
    assert_eq!(cat_index_lmr_reduction(10, 8, 20, 40, 621, 150, false, 2, &curve), 0);
}

#[test]
fn lmr_aggression_schedule_matches_spec() {
    assert_eq!(lmr_aggression_percent(0), 177);
    assert_eq!(lmr_aggression_percent(1), 200);
    assert_eq!(lmr_aggression_percent(2), 277);
    assert_eq!(lmr_aggression_percent(3), 350);
    assert_eq!(lmr_aggression_percent(9), 350);
}

#[test]
fn path_correction_reduces_cut_when_race_improves() {
    let base = cat_index_lmr_reduction(10, 8, 20, 400, 621, 0, false, 2, &curve);
    assert!(base > 0);
    let diag = apply_lmr_path_correction(base, 10, 1, ratio(50), false);
    assert_eq!(diag.path_adjustment, -1);
    assert_eq!(diag.final_reduction, base - 1);
}

#[test]
fn path_correction_dead_tail_when_no_race_and_cold_attention() {
    let base = cat_index_lmr_reduction(10, 8, 20, 40, 621, 0, false, 2, &curve);
    assert_eq!(base, 10);
    let diag = apply_lmr_path_correction(base, 10, 0, ratio(6), false);
    assert_eq!(diag.final_reduction, 9);
    assert_eq!(diag.path_adjustment, -1);
}

#[test]
fn thread_aggression_gated_until_env_enabled() {
    assert!(!lmr_thread_aggression_enabled(None));
    assert_eq!(lmr_aggression_tuning_percent(3, lmr_thread_aggression_enabled(None)), -177);
}

#[test]
fn thread_aggression_settings() {
    assert!(lmr_thread_aggression_enabled(Some("1")));
    assert!(lmr_thread_aggression_enabled(Some("true")));
    assert!(lmr_thread_aggression_enabled(Some("TrUe")));
    assert!(!lmr_thread_aggression_enabled(Some("0")));
    assert!(!lmr_thread_aggression_enabled(Some("yes")));
    assert_eq!(lmr_aggression_tuning_percent(3, true), -350);
}

#[test]
fn with_path_wires_cached_scalars() {
    let diag =
        cat_index_lmr_with_path(10, 8, 20, 400, 621, 0, false, 2, 8, 6, 7, 7, false, &curve);
    assert_eq!(diag.self_gain, 1);
    assert_eq!(diag.opponent_delay, 1);
    assert_eq!(diag.race_gain, 2);
    assert!(diag.base_reduction > 0);
    assert_eq!(diag.final_reduction, diag.base_reduction - 1);
    assert_eq!(diag.thread_aggression_percent, 177);
}

#[test]
fn tails_and_hot_shares() {
    assert!(Ratio { part: 1, whole: 10 }.is_tail());
    assert!(!Ratio { part: 101, whole: 1000 }.is_tail());
    assert!(Ratio { part: 5, whole: 0 }.is_tail());
    assert!(Ratio { part: 72, whole: 100 }.is_hot());
    assert!(!Ratio { part: 719, whole: 1000 }.is_hot());
    assert_eq!(cat_attention(-5, 7), Ratio { part: 0, whole: 7 });
    assert_eq!(cat_attention(9, 7), Ratio { part: 7, whole: 7 });
    assert_eq!(compute_race_gain(8, 6, 7, 7), (1, 1, 2));
}

#[test]
fn cat_hot_cold_threshold_semantics() {
    assert!(is_cat_hot_corridor(160));
    assert!(!is_cat_hot_corridor(159));
    assert!(59 < i32::from(CAT_COLD_CM));
    assert!(!(60 < i32::from(CAT_COLD_CM)));
}

#[test]
fn shallow_snapshot_has_legal_moves() {
    let plans = root_plans(&Board::new(), 8);
    assert!(plans.len() >= 4);
    assert!(plans[0].tactical);
}

#[test]
fn lmr_vision_cat_cm_matches_impact_heatmap() {
    let mut board = Board::new();
    for m in ["e2", "e8", "e3", "e7", "e4", "e6"] {
        board.apply_algebraic(m);
    }
    let bfs = BfsScratch::new();
    let cat = build_impact_heatmap(&board);
    let mut legal_buf = [Move::Pawn { row: 0, col: 0 }; MAX_LEGAL_MOVES];
    let legal_n = generate_legal_moves_slice(&board, &mut legal_buf, &bfs);
    let plans = root_plans(&board, 8);
    assert_eq!(
        plans.len(),
        plans.iter().map(|p| &p.mv).collect::<HashSet<_>>().len(),
        "duplicate moves"
    );
    let by_mv: HashMap<String, i32> = plans.iter().map(|p| (p.mv.clone(), p.cat_cm)).collect();
    assert_eq!(by_mv.len(), legal_n, "one plan per legal move");
    for mv in &legal_buf[..legal_n] {
        let key = format_move(*mv);
        let reported = *by_mv.get(&key).unwrap_or_else(|| panic!("missing {key}"));
        let expected = move_impact_heat(*mv, &cat);
        assert_eq!(reported, expected, "heat of {key}");
    }
}

#[test]
fn dead_tail_forces_depth_one_at_ten_percent() {
    let child_full = 7i32;
    let dead = plan_v16_wall_lmr(8, 8, child_full, ratio(5), 1, 0);
    let fringe = plan_v16_wall_lmr(8, 8, child_full, ratio(12), 1, 0);
    let side = plan_v16_wall_lmr(8, 8, child_full, ratio(65), 1, 0);
    assert_eq!(dead.child_depth_used, 1);
    assert_eq!(dead.hard_override, V16HardOverride::DeadTail);
    assert!(fringe.child_depth_used > dead.child_depth_used);
    assert!(side.child_depth_used >= fringe.child_depth_used);
}

#[test]
fn ace_baseline_ignores_cat_ratio_above_tail() {
    let child_full = 7i32;
    let mid = plan_v16_wall_lmr(12, 8, child_full, ratio(50), 1, 0);
    let hot = plan_v16_wall_lmr(12, 8, child_full, ratio(100), 1, 0);
    assert_eq!(mid.ace_base_reduction, hot.ace_base_reduction);
    assert_eq!(mid.final_reduction, hot.final_reduction);
    assert_eq!(mid.child_depth_used, hot.child_depth_used);
    assert_eq!(mid.hard_override, V16HardOverride::Unforced);
}

#[test]
fn backward_move_override_forces_depth_one() {
    let p = plan_v16_pawn_lmr(3, 8, 7, -1).expect("backwards");
    assert_eq!(p.hard_override, V16HardOverride::BackwardMove);
    assert_eq!(p.child_depth_used, 1);
}

#[test]
fn ace_graduated_increases_with_move_index() {
    let child_full = 10i32;
    let early = plan_v16_wall_lmr(4, 8, child_full, ratio(50), 1, 0);
    let late = plan_v16_wall_lmr(12, 8, child_full, ratio(50), 1, 0);
    let very_late = plan_v16_wall_lmr(24, 8, child_full, ratio(50), 1, 0);
    assert!(late.final_reduction > early.final_reduction);
    assert!(very_late.final_reduction > late.final_reduction);
}

#[test]
fn tuning_slider_no_longer_changes_planned_reduction() {
    let at_zero = root_plans(&Board::new(), 8);
    let at_full = root_plans(&Board::new(), 8);
    for (a, b) in at_zero.iter().zip(at_full.iter()) {
        assert_eq!(a.mv, b.mv);
        assert_eq!(a.final_reduction, b.final_reduction);
        assert_eq!(a.child_depth_used, b.child_depth_used);
    }
}

#[test]
fn engine_default_snapshot_shows_full_depth_and_hard_wall_reductions() {
    let mut board = Board::new();
    board.apply_algebraic("e3");
    board.apply_algebraic("e8");
    let plans = root_plans(&board, 11);
    assert!(
        plans.iter().any(|p| p.reduction == 0 && p.child_depth_used == 10),
        "hot moves should still keep full depth"
    );
    assert!(
        plans
            .iter()
            .any(|p| p.hard_override == V16HardOverride::BackwardMove.as_str()
                && p.child_depth_used <= 1),
        "useless walls should be reduced to child depth 1"
    );
}

#[test]
fn snapshot_merges_both_players() {
    let mut board = Board::new();
    board.apply_algebraic("e2");
    let (depth, chosen, plans) = lmr_snapshot(&board, 1000, 2, &profile, &reaches, &boost);
    assert_eq!(depth, 4);
    assert_eq!(chosen, LmrProfile { cold_cm: 60, hot_ratio_pct: 72 });
    assert!(plans.iter().any(|p| p.mv == "e8"));
    assert!(plans.iter().any(|p| p.mv == "e3"));
    let names: HashSet<&String> = plans.iter().map(|p| &p.mv).collect();
    assert_eq!(names.len(), plans.len());
    for (i, p) in plans.iter().enumerate() {
        assert_eq!(p.order, i);
    }
}

#[test]
fn merging_keeps_the_deeper_plan() {
    let mut mine = root_plans(&Board::new(), 8);
    mine.truncate(2);
    let mut theirs = mine.clone();
    theirs[0].child_depth_used += 1;
    theirs[0].order = 77;
    theirs[1].cat_cm += 5;
    let first = mine[0].clone();
    let second = mine[1].clone();
    let mut other = theirs[1].clone();
    other.mv = "zz".to_string();
    theirs.push(other);
    merge_combined_plans(&mut mine, theirs);
    assert_eq!(mine.len(), 3);
    assert_eq!(mine[0].child_depth_used, first.child_depth_used + 1);
    assert_eq!(mine[0].order, 0);
    assert_eq!(mine[1].cat_cm, second.cat_cm + 5);
    assert_eq!(mine[2].mv, "zz");
    assert_eq!(mine[2].order, 2);
}

#[test]
fn summary_counts_reductions() {
    let plans = root_plans(&Board::new(), 8);
    let s = summarize_plans(&plans);
    assert_eq!(s.hot_count as usize, plans.iter().filter(|p| p.hot).count());
    assert_eq!(s.cold_count as usize, plans.iter().filter(|p| p.cold).count());
    assert_eq!(s.max_adjusted_reduction, plans.iter().map(|p| p.reduction).max().unwrap());
    assert_eq!(s.adjusted_sum, plans.iter().map(|p| p.reduction as u64).sum::<u64>());
    assert_eq!(s.baseline_sum, plans.iter().map(|p| p.baseline_reduction as u64).sum::<u64>());
}
