//! Late-move reductions by attention and rank, against the most any legal move
//! is worth.

use vstd::prelude::*;

verus! {

/// A share of a whole; nothing of nothing is none.
#[derive(Debug, Clone, Copy, PartialEq, Eq, Structural)]
pub struct Ratio {
    pub part: u32,
    pub whole: u32,
}

/// The tail of the attention, in percent.
pub const CAT_ATTENTION_TAIL_PCT: u64 = 10;

/// Attention that counts as hot, in percent.
pub const HOT_ATTENTION_PCT: u64 = 72;

impl Ratio {
    /// At most a tenth.
    pub open spec fn in_tail(self) -> bool {
        self.whole == 0 || self.part * 100 <= self.whole * CAT_ATTENTION_TAIL_PCT
    }

    /// Whether it is at most a tenth.
    pub fn is_tail(self) -> (r: bool)
        ensures
            r == self.in_tail(),
    {
        self.whole == 0 || self.part as u64 * 100 <= self.whole as u64 * CAT_ATTENTION_TAIL_PCT
    }

    /// At least 72 percent.
    pub open spec fn hot(self) -> bool {
        self.whole != 0 && self.part * 100 >= self.whole * HOT_ATTENTION_PCT
    }

    /// Whether it is at least 72 percent.
    pub fn is_hot(self) -> (r: bool)
        ensures
            r == self.hot(),
    {
        self.whole != 0 && self.part as u64 * 100 >= self.whole as u64 * HOT_ATTENTION_PCT
    }
}

/// The share of a move's impact in the highest: not below none, not above all.
pub open spec fn attention_spec(move_impact: int, max_move_impact: int) -> Ratio {
    Ratio {
        part: (if move_impact < 0 {
            0
        } else if move_impact < max_move_impact {
            move_impact
        } else {
            max_move_impact
        }) as u32,
        whole: max_move_impact as u32,
    }
}

/// The share of a move's impact in the highest.
pub fn cat_attention(move_impact: i32, max_move_impact: u32) -> (r: Ratio)
    ensures
        r == attention_spec(move_impact as int, max_move_impact as int),
{
    let part: u32 = if move_impact < 0 {
        0
    } else if (move_impact as u32) < max_move_impact {
        move_impact as u32
    } else {
        max_move_impact
    };
    Ratio { part, whole: max_move_impact }
}

/// Boldness of a worker, in percent.
pub fn lmr_aggression_percent(thread_id: usize) -> (r: i32)
    ensures
        r == aggression(thread_id as int),
{
    if thread_id == 0 {
        177
    } else if thread_id == 1 {
        200
    } else if thread_id == 2 {
        277
    } else {
        350
    }
}

/// Boldness of a worker.
pub open spec fn aggression(thread_id: int) -> int {
    if thread_id == 0 {
        177
    } else if thread_id == 1 {
        200
    } else if thread_id == 2 {
        277
    } else {
        350
    }
}

/// Whether a setting turns the boldness of helpers on: `1`, or `true` in any
/// case.
pub fn lmr_thread_aggression_enabled(setting: Option<&str>) -> (r: bool)
    ensures
        r == (setting matches Some(t) && turns_on(t@)),
{
    match setting {
        None => false,
        Some(t) => {
            if t.unicode_len() == 1 {
                return t.get_char(0) == '1';
            }
            if t.unicode_len() != 4 {
                return false;
            }
            is_letter(t.get_char(0), 't', 'T') && is_letter(t.get_char(1), 'r', 'R') && is_letter(
                t.get_char(2),
                'u',
                'U',
            ) && is_letter(t.get_char(3), 'e', 'E')
        },
    }
}

fn is_letter(c: char, low: char, high: char) -> (r: bool)
    ensures
        r == (c == low || c == high),
{
    c == low || c == high
}

/// `1`, or `true` in any case.
pub open spec fn turns_on(t: Seq<char>) -> bool {
    ||| t.len() == 1 && t[0] == '1'
    ||| {
        &&& t.len() == 4
        &&& t[0] == 't' || t[0] == 'T'
        &&& t[1] == 'r' || t[1] == 'R'
        &&& t[2] == 'u' || t[2] == 'U'
        &&& t[3] == 'e' || t[3] == 'E'
    }
}

/// The tuning of a worker: less depth the bolder it is. Where the boldness of
/// helpers is off, all work like the first.
pub fn lmr_aggression_tuning_percent(thread_id: usize, enabled: bool) -> (r: i32)
    ensures
        r == -aggression(if enabled {
            thread_id as int
        } else {
            0
        }),
{
    let id: usize = if enabled {
        thread_id
    } else {
        0
    };
    -lmr_aggression_percent(id)
}

/// A reduction and what it rests on.
#[derive(Debug, Clone, Copy, PartialEq, Eq, Structural)]
pub struct LmrPathDiagnostics {
    pub self_gain: i32,
    pub opponent_delay: i32,
    pub race_gain: i32,
    pub attention_ratio: Ratio,
    pub base_reduction: u32,
    pub path_adjustment: i32,
    pub final_reduction: u32,
    pub thread_aggression_percent: i32,
}

/// What a move does to the race: how much nearer we are, how much farther the
/// opponent, and both.
pub open spec fn race_gain(pre_our: int, pre_opp: int, post_our: int, post_opp: int) -> (
    int,
    int,
    int,
) {
    (pre_our - post_our, post_opp - pre_opp, (pre_our - post_our) + (post_opp - pre_opp))
}

/// What a move does to the race.
pub fn compute_race_gain(pre_our: u8, pre_opp: u8, post_our: u8, post_opp: u8) -> (r: (
    i32,
    i32,
    i32,
))
    ensures
        r.0 == pre_our - post_our,
        r.1 == post_opp - pre_opp,
        r.2 == r.0 + r.1,
        (r.0 as int, r.1 as int, r.2 as int) == race_gain(
            pre_our as int,
            pre_opp as int,
            post_our as int,
            post_opp as int,
        ),
{
    let self_gain: i32 = pre_our as i32 - post_our as i32;
    let opponent_delay: i32 = post_opp as i32 - pre_opp as i32;
    (self_gain, opponent_delay, self_gain + opponent_delay)
}

/// All but one ply.
pub open spec fn all_but_one(full: int) -> int {
    if full > 0 {
        full - 1
    } else {
        0
    }
}

/// The corrected reduction: one less for a gain in the race, all but one ply
/// for no gain in the tail of the attention, never more than all but one ply.
pub open spec fn corrected(base: int, full: int, race_gain: int, tail: bool, skip: bool) -> int {
    let safe = all_but_one(full);
    let r = if skip || full <= 1 {
        base
    } else if race_gain > 0 && base > 0 {
        base - 1
    } else if race_gain == 0 && tail {
        safe
    } else {
        base
    };
    if r < safe {
        r
    } else {
        safe
    }
}

/// The correction itself.
pub open spec fn correction(base: int, full: int, race_gain: int, tail: bool, skip: bool) -> int {
    if skip || full <= 1 {
        0
    } else if race_gain > 0 && base > 0 {
        -1
    } else if race_gain == 0 && tail {
        all_but_one(full) - base
    } else {
        0
    }
}

/// Corrects a reduction by what the move does to the race.
pub fn apply_lmr_path_correction(
    base_reduction: u32,
    full_child_depth: u32,
    race_gain: i32,
    attention_ratio: Ratio,
    skip_reduction: bool,
) -> (r: LmrPathDiagnostics)
    requires
        base_reduction <= i32::MAX,
        full_child_depth <= i32::MAX,
    ensures
        r == (LmrPathDiagnostics {
            self_gain: 0i32,
            opponent_delay: 0i32,
            race_gain,
            attention_ratio,
            base_reduction,
            path_adjustment: correction(
                base_reduction as int,
                full_child_depth as int,
                race_gain as int,
                attention_ratio.in_tail(),
                skip_reduction,
            ) as i32,
            final_reduction: corrected(
                base_reduction as int,
                full_child_depth as int,
                race_gain as int,
                attention_ratio.in_tail(),
                skip_reduction,
            ) as u32,
            thread_aggression_percent: 0i32,
        }),
{
    let safe: u32 = full_child_depth.saturating_sub(1);
    let mut path_adjustment: i32 = 0;
    let mut r: u32 = base_reduction;
    if !(skip_reduction || full_child_depth <= 1) {
        if race_gain > 0 && r > 0 {
            path_adjustment = -1;
            r = r - 1;
        } else if race_gain == 0 && attention_ratio.is_tail() {
            path_adjustment = safe as i32 - r as i32;
            r = safe;
        }
    }
    if r > safe {
        r = safe;
    }
    LmrPathDiagnostics {
        self_gain: 0,
        opponent_delay: 0,
        race_gain,
        attention_ratio,
        base_reduction,
        path_adjustment,
        final_reduction: r,
        thread_aggression_percent: 0,
    }
}

/// What the curve of a reduction gets to see.
#[derive(Debug, Clone, Copy, PartialEq, Eq, Structural)]
pub struct CurvePoint {
    pub max_reduction: u32,
    pub move_rank: usize,
    pub move_count: usize,
    pub attention: Ratio,
    /// From -500, the boldest, to 150.
    pub tuning_percent: i32,
}

/// Nothing is taken off.
pub open spec fn untouched(
    full: int,
    move_rank: int,
    move_count: int,
    tuning: int,
    skip: bool,
    first: int,
) -> bool {
    skip || full <= 1 || move_count <= 1 || move_rank < first || tuning >= NO_REDUCTION_TUNING
}

/// From this tuning on nothing is reduced.
pub const NO_REDUCTION_TUNING: i32 = 150;

/// Plies taken off by attention and rank: none for early moves, the whole child
/// in the tail, otherwise what the curve says, but one ply stays.
pub fn cat_index_lmr_reduction<C: Fn(CurvePoint) -> u32>(
    full_child_depth: u32,
    move_rank: usize,
    move_count: usize,
    move_impact: i32,
    max_move_impact: u32,
    tuning_percent: i32,
    skip_reduction: bool,
    first_reducible_rank: usize,
    curve: &C,
) -> (r: u32)
    requires
        forall|p: CurvePoint| #[trigger] call_requires(*curve, (p,)),
    ensures
        reduction_is(
            full_child_depth,
            move_rank,
            move_count,
            move_impact,
            max_move_impact,
            tuning_percent,
            skip_reduction,
            first_reducible_rank,
            *curve,
            r as int,
        ),
        r <= full_child_depth,
{
    if skip_reduction || full_child_depth <= 1 || move_count <= 1 || move_rank
        < first_reducible_rank || tuning_percent >= NO_REDUCTION_TUNING {
        return 0;
    }
    let attention: Ratio = cat_attention(move_impact, max_move_impact);
    if max_move_impact > 0 && attention.is_tail() {
        return full_child_depth;
    }
    let max_reduction: u32 = full_child_depth - 1;
    let p: CurvePoint = CurvePoint {
        max_reduction,
        move_rank,
        move_count,
        attention,
        tuning_percent,
    };
    let x: u32 = curve(p);
    if x < max_reduction {
        x
    } else {
        max_reduction
    }
}

/// `r` plies are taken off.
pub open spec fn reduction_is<C: Fn(CurvePoint) -> u32>(
    full: u32,
    move_rank: usize,
    move_count: usize,
    move_impact: i32,
    max_move_impact: u32,
    tuning_percent: i32,
    skip: bool,
    first: usize,
    curve: C,
    r: int,
) -> bool {
    let attention = attention_spec(move_impact as int, max_move_impact as int);
    if untouched(
        full as int,
        move_rank as int,
        move_count as int,
        tuning_percent as int,
        skip,
        first as int,
    ) {
        r == 0
    } else if max_move_impact > 0 && attention.in_tail() {
        r == full
    } else {
        let max_reduction = (full - 1) as u32;
        exists|x: u32| #[trigger]
            call_ensures(
                curve,
                (CurvePoint { max_reduction, move_rank, move_count, attention, tuning_percent },),
                x,
            ) && r == (if x < max_reduction {
                x
            } else {
                max_reduction
            })
    }
}

/// The whole plan of a late move: by attention and rank, corrected by the race.
pub fn cat_index_lmr_with_path<C: Fn(CurvePoint) -> u32>(
    full_child_depth: u32,
    move_rank: usize,
    move_count: usize,
    move_impact: i32,
    max_move_impact: u32,
    thread_id: usize,
    skip_reduction: bool,
    first_reducible_rank: usize,
    pre_our: u8,
    pre_opp: u8,
    post_our: u8,
    post_opp: u8,
    enabled: bool,
    curve: &C,
) -> (r: LmrPathDiagnostics)
    requires
        full_child_depth <= i32::MAX,
        forall|p: CurvePoint| #[trigger] call_requires(*curve, (p,)),
    ensures
        r.self_gain == pre_our - post_our,
        r.opponent_delay == post_opp - pre_opp,
        r.race_gain == r.self_gain + r.opponent_delay,
        r.attention_ratio == attention_spec(move_impact as int, max_move_impact as int),
        r.thread_aggression_percent == aggression(if enabled {
            thread_id as int
        } else {
            0
        }),
        reduction_is(
            full_child_depth,
            move_rank,
            move_count,
            move_impact,
            max_move_impact,
            (-r.thread_aggression_percent) as i32,
            skip_reduction,
            first_reducible_rank,
            *curve,
            r.base_reduction as int,
        ),
        r.final_reduction == corrected(
            r.base_reduction as int,
            full_child_depth as int,
            r.race_gain as int,
            r.attention_ratio.in_tail(),
            skip_reduction,
        ),
        r.path_adjustment == correction(
            r.base_reduction as int,
            full_child_depth as int,
            r.race_gain as int,
            r.attention_ratio.in_tail(),
            skip_reduction,
        ),
{
    let id: usize = if enabled {
        thread_id
    } else {
        0
    };
    let attention_ratio: Ratio = cat_attention(move_impact, max_move_impact);
    let base: u32 = cat_index_lmr_reduction(
        full_child_depth,
        move_rank,
        move_count,
        move_impact,
        max_move_impact,
        lmr_aggression_tuning_percent(thread_id, enabled),
        skip_reduction,
        first_reducible_rank,
        curve,
    );
    let gains: (i32, i32, i32) = compute_race_gain(pre_our, pre_opp, post_our, post_opp);
    let mut d: LmrPathDiagnostics = apply_lmr_path_correction(
        base,
        full_child_depth,
        gains.2,
        attention_ratio,
        skip_reduction,
    );
    d.self_gain = gains.0;
    d.opponent_delay = gains.1;
    d.race_gain = gains.2;
    d.thread_aggression_percent = lmr_aggression_percent(id);
    d
}

/// A corrected reduction leaves at least one ply of a child that has any.
pub proof fn lemma_corrected_leaves_a_ply(base: int, full: int, race_gain: int, tail: bool, skip: bool)
    requires
        base >= 0,
        full >= 1,
    ensures
        0 <= corrected(base, full, race_gain, tail, skip) <= full - 1,
{
}

} // verus!
