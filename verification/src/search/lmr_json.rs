//! Planned reductions as JSON.

use vstd::prelude::*;

use crate::search::lmr_viz::{
    summarize_plans, summary_of, LmrPlanSummary, LmrProfile, RootLmrPlan,
};
use crate::util::text::{
    keyed, push_keyed, push_keyed_signed, push_keyed_text, push_keyed_truth, push_text, truth,
};

verus! {

/// What a profile holds beside its limits: three ratios, as texts, and two
/// counts of moves.
pub struct ProfileTexts {
    pub stage_t: String,
    pub aggression: String,
    pub pierce_t: String,
    pub move_window: u64,
    pub lmr_after_move: u64,
}

/// A profile as JSON.
pub open spec fn profile_text(p: LmrProfile, t: ProfileTexts, id_depth: u32) -> Seq<char> {
    ("{\"stageT\":"@ + t.stage_t@) + (",\"aggression\":"@ + t.aggression@) + (",\"pierceT\":"@
        + t.pierce_t@) + keyed(",\"moveWindow\":"@, t.move_window as int) + keyed(
        ",\"lmrAfter\":"@,
        t.lmr_after_move as int,
    ) + keyed(",\"hotPct\":"@, p.hot_ratio_pct as int) + keyed(",\"coldCm\":"@, p.cold_cm as int)
        + keyed(",\"idDepth\":"@, id_depth as int) + "}"@
}

/// A profile as JSON.
pub fn lmr_profile_fields(p: &LmrProfile, t: &ProfileTexts, id_depth: u32) -> (r: String)
    ensures
        r@ == profile_text(*p, *t, id_depth),
{
    let mut s: String = String::new();
    push_keyed_text(&mut s, "{\"stageT\":", t.stage_t.as_str());
    push_keyed_text(&mut s, ",\"aggression\":", t.aggression.as_str());
    push_keyed_text(&mut s, ",\"pierceT\":", t.pierce_t.as_str());
    push_keyed(&mut s, ",\"moveWindow\":", t.move_window);
    push_keyed(&mut s, ",\"lmrAfter\":", t.lmr_after_move);
    push_keyed(&mut s, ",\"hotPct\":", p.hot_ratio_pct as u64);
    push_keyed(&mut s, ",\"coldCm\":", p.cold_cm as u64);
    push_keyed(&mut s, ",\"idDepth\":", id_depth as u64);
    push_text(&mut s, "}");
    assert(s@ =~= profile_text(*p, *t, id_depth));
    s
}

/// What a move is and how it counts.
pub open spec fn kind_text(p: RootLmrPlan) -> Seq<char> {
    ("{\"move\":\""@ + p.mv@) + ("\",\"kind\":\""@ + (if p.is_pawn {
        "pawn"@
    } else {
        "wall"@
    })) + keyed("\",\"order\":"@, p.order as int) + keyed(",\"catCm\":"@, p.cat_cm as int) + (
    ",\"tactical\":"@ + truth(p.tactical)) + (",\"hot\":"@ + truth(p.hot)) + (",\"cold\":"@ + truth(
        p.cold,
    )) + (",\"pruned\":"@ + truth(p.pruned))
}

fn push_kind(s: &mut String, p: &RootLmrPlan)
    ensures
        final(s)@ == old(s)@ + kind_text(*p),
{
    push_keyed_text(s, "{\"move\":\"", p.mv.as_str());
    let kind: &str = if p.is_pawn {
        "pawn"
    } else {
        "wall"
    };
    push_keyed_text(s, "\",\"kind\":\"", kind);
    push_keyed(s, "\",\"order\":", p.order as u64);
    push_keyed_signed(s, ",\"catCm\":", p.cat_cm);
    push_keyed_truth(s, ",\"tactical\":", p.tactical);
    push_keyed_truth(s, ",\"hot\":", p.hot);
    push_keyed_truth(s, ",\"cold\":", p.cold);
    push_keyed_truth(s, ",\"pruned\":", p.pruned);
    assert(s@ =~= old(s)@ + kind_text(*p));
}

/// The depths of a move; whole plies are written with four decimals too.
pub open spec fn depths_text(p: RootLmrPlan) -> Seq<char> {
    keyed(",\"baselineReductionFp\":"@, p.baseline_reduction as int) + keyed(
        ".0000,\"baselineReduction\":"@,
        p.baseline_reduction as int,
    ) + keyed(",\"baselineChildDepthFull\":"@, p.baseline_child_depth_full as int) + keyed(
        ",\"baselineChildDepthUsed\":"@,
        p.baseline_child_depth_used as int,
    ) + keyed(",\"requestedReductionFp\":"@, p.reduction as int) + keyed(
        ".0000,\"reduction\":"@,
        p.reduction as int,
    ) + keyed(",\"childDepthFull\":"@, p.child_depth_full as int) + keyed(
        ",\"childDepthUsed\":"@,
        p.child_depth_used as int,
    )
}

fn push_depths(s: &mut String, p: &RootLmrPlan)
    ensures
        final(s)@ == old(s)@ + depths_text(*p),
{
    push_keyed(s, ",\"baselineReductionFp\":", p.baseline_reduction as u64);
    push_keyed(s, ".0000,\"baselineReduction\":", p.baseline_reduction as u64);
    push_keyed(s, ",\"baselineChildDepthFull\":", p.baseline_child_depth_full as u64);
    push_keyed(s, ",\"baselineChildDepthUsed\":", p.baseline_child_depth_used as u64);
    push_keyed(s, ",\"requestedReductionFp\":", p.reduction as u64);
    push_keyed(s, ".0000,\"reduction\":", p.reduction as u64);
    push_keyed(s, ",\"childDepthFull\":", p.child_depth_full as u64);
    push_keyed(s, ",\"childDepthUsed\":", p.child_depth_used as u64);
    assert(s@ =~= old(s)@ + depths_text(*p));
}

/// Why a move is reduced, with its attention as a text.
pub open spec fn reasons_text(p: RootLmrPlan, attention: Seq<char>) -> Seq<char> {
    (",\"reductionClamped\":"@ + truth(p.reduction_clamped)) + (",\"inFullWindow\":"@ + truth(
        p.in_full_window,
    )) + (",\"attentionRatio\":"@ + attention) + (",\"deadTail\":"@ + truth(p.dead_tail)) + keyed(
        ",\"aceBaseReduction\":"@,
        p.ace_base_reduction as int,
    ) + (",\"hardOverride\":\""@ + p.hard_override@) + keyed(
        "\",\"finalReduction\":"@,
        p.final_reduction as int,
    ) + "}"@
}

fn push_reasons(s: &mut String, p: &RootLmrPlan, attention: &str)
    ensures
        final(s)@ == old(s)@ + reasons_text(*p, attention@),
{
    push_keyed_truth(s, ",\"reductionClamped\":", p.reduction_clamped);
    push_keyed_truth(s, ",\"inFullWindow\":", p.in_full_window);
    push_keyed_text(s, ",\"attentionRatio\":", attention);
    push_keyed_truth(s, ",\"deadTail\":", p.dead_tail);
    push_keyed(s, ",\"aceBaseReduction\":", p.ace_base_reduction as u64);
    push_keyed_text(s, ",\"hardOverride\":\"", p.hard_override);
    push_keyed(s, "\",\"finalReduction\":", p.final_reduction as u64);
    push_text(s, "}");
    assert(s@ =~= old(s)@ + reasons_text(*p, attention@));
}

/// The plan of a move as JSON.
pub open spec fn plan_text(p: RootLmrPlan, attention: Seq<char>) -> Seq<char> {
    kind_text(p) + depths_text(p) + reasons_text(p, attention)
}

/// The plans of the first `n` moves, with commas between.
pub open spec fn plans_text(plans: Seq<RootLmrPlan>, attention: Seq<String>, n: int) -> Seq<char>
    decreases n,
{
    if n <= 0 {
        Seq::empty()
    } else if n == 1 {
        plan_text(plans[0], attention[0]@)
    } else {
        plans_text(plans, attention, n - 1).push(',') + plan_text(
            plans[n - 1],
            attention[n - 1]@,
        )
    }
}

/// The summary as JSON, with its means as texts.
pub open spec fn summary_text(
    s: LmrPlanSummary,
    mean_baseline: Seq<char>,
    mean_adjusted: Seq<char>,
) -> Seq<char> {
    keyed("\"summary\":{\"movesMoreReduction\":"@, s.moves_more_reduction as int) + (
    ",\"avgBaselineReductionFp\":"@ + mean_baseline) + (",\"avgAdjustedReductionFp\":"@
        + mean_adjusted) + keyed(",\"maxBaselineReduction\":"@, s.max_baseline_reduction as int)
        + keyed(",\"maxAdjustedReduction\":"@, s.max_adjusted_reduction as int) + keyed(
        ",\"hotCount\":"@,
        s.hot_count as int,
    ) + keyed(",\"coldCount\":"@, s.cold_count as int)
}

fn push_summary(t: &mut String, s: &LmrPlanSummary, mean_baseline: &str, mean_adjusted: &str)
    ensures
        final(t)@ == old(t)@ + summary_text(*s, mean_baseline@, mean_adjusted@),
{
    push_keyed(t, "\"summary\":{\"movesMoreReduction\":", s.moves_more_reduction as u64);
    push_keyed_text(t, ",\"avgBaselineReductionFp\":", mean_baseline);
    push_keyed_text(t, ",\"avgAdjustedReductionFp\":", mean_adjusted);
    push_keyed(t, ",\"maxBaselineReduction\":", s.max_baseline_reduction as u64);
    push_keyed(t, ",\"maxAdjustedReduction\":", s.max_adjusted_reduction as u64);
    push_keyed(t, ",\"hotCount\":", s.hot_count as u64);
    push_keyed(t, ",\"coldCount\":", s.cold_count as u64);
    assert(t@ =~= old(t)@ + summary_text(*s, mean_baseline@, mean_adjusted@));
}

/// Plans with their summary as JSON.
pub open spec fn all_plans_text(
    plans: Seq<RootLmrPlan>,
    attention: Seq<String>,
    mean_baseline: Seq<char>,
    mean_adjusted: Seq<char>,
) -> Seq<char> {
    summary_text(summary_of(plans, plans.len() as int), mean_baseline, mean_adjusted)
        + "},\"moves\":["@ + plans_text(plans, attention, plans.len() as int) + "]"@
}

/// Plans with their summary as JSON. The texts are the attention of each move and
/// the means of the reductions.
pub fn format_lmr_plans_json(
    plans: &Vec<RootLmrPlan>,
    attention: &Vec<String>,
    mean_baseline: &str,
    mean_adjusted: &str,
) -> (r: String)
    requires
        plans@.len() <= u32::MAX,
        attention@.len() == plans@.len(),
    ensures
        r@ == all_plans_text(plans@, attention@, mean_baseline@, mean_adjusted@),
{
    let mut list: String = String::new();
    let n: usize = plans.len();
    let mut i: usize = 0;
    assert(list@ =~= plans_text(plans@, attention@, 0));
    while i < n
        invariant
            i <= n,
            n == plans@.len(),
            attention@.len() == plans@.len(),
            list@ == plans_text(plans@, attention@, i as int),
        decreases n - i,
    {
        if i > 0 {
            list.push(',');
        }
        let ghost before = list@;
        push_kind(&mut list, &plans[i]);
        push_depths(&mut list, &plans[i]);
        push_reasons(&mut list, &plans[i], attention[i].as_str());
        assert(list@ =~= before + plan_text(plans@[i as int], attention@[i as int]@));
        assert(list@ =~= plans_text(plans@, attention@, i + 1));
        i += 1;
    }
    let mut s: String = String::new();
    push_summary(&mut s, &summarize_plans(plans), mean_baseline, mean_adjusted);
    push_text(&mut s, "},\"moves\":[");
    push_text(&mut s, list.as_str());
    push_text(&mut s, "]");
    assert(s@ =~= all_plans_text(plans@, attention@, mean_baseline@, mean_adjusted@));
    s
}

/// The tuning that is told: within -500 and 150 percent.
pub open spec fn told_percent(percent: int) -> int {
    if percent < -500 {
        -500
    } else if percent > 150 {
        150
    } else {
        percent
    }
}

/// A snapshot as JSON, of a profile and of plans that are JSON already.
pub fn lmr_snapshot_json(
    depth: u32,
    time_ms: u64,
    depth_kept_percent: i32,
    profile: &str,
    plans: &str,
) -> (r: String)
    ensures
        r@ == keyed("{\"source\":\"shallow\",\"idDepth\":"@, depth as int) + keyed(
            ",\"timeMs\":"@,
            time_ms as int,
        ) + keyed(",\"lmrAggressionPercent\":"@, told_percent(depth_kept_percent as int)) + keyed(
            ",\"lmrTuningPercent\":"@,
            told_percent(depth_kept_percent as int),
        ) + (",\"lmrProfile\":"@ + profile@) + (","@ + plans@) + "}"@,
{
    let told: i32 = if depth_kept_percent < -500 {
        -500
    } else if depth_kept_percent > 150 {
        150
    } else {
        depth_kept_percent
    };
    let mut s: String = String::new();
    push_keyed(&mut s, "{\"source\":\"shallow\",\"idDepth\":", depth as u64);
    push_keyed(&mut s, ",\"timeMs\":", time_ms);
    push_keyed_signed(&mut s, ",\"lmrAggressionPercent\":", told);
    push_keyed_signed(&mut s, ",\"lmrTuningPercent\":", told);
    push_keyed_text(&mut s, ",\"lmrProfile\":", profile);
    push_keyed_text(&mut s, ",", plans);
    push_text(&mut s, "}");
    assert(s@ =~= keyed("{\"source\":\"shallow\",\"idDepth\":"@, depth as int) + keyed(
        ",\"timeMs\":"@,
        time_ms as int,
    ) + keyed(",\"lmrAggressionPercent\":"@, told as int) + keyed(
        ",\"lmrTuningPercent\":"@,
        told as int,
    ) + (",\"lmrProfile\":"@ + profile@) + (","@ + plans@) + "}"@);
    s
}

} // verus!
