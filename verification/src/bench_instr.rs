//! Counters and timers of a measured search.

use vstd::prelude::*;

use crate::util::clock::Deadline;
use crate::util::text::{keyed, push_keyed, push_keyed_text, push_text, push_wide};

verus! {

/// Calls of an operation and the time they took.
#[derive(Clone, Copy, Debug, PartialEq, Eq, Structural)]
pub struct OpStat {
    pub calls: u64,
    pub ns: u128,
}

impl OpStat {
    /// Counts a call of so many nanoseconds.
    pub fn record(&mut self, ns: u128)
        requires
            old(self).calls < u64::MAX,
            old(self).ns + ns <= u128::MAX,
        ensures
            final(self).calls == old(self).calls + 1,
            final(self).ns == old(self).ns + ns,
    {
        self.calls = self.calls + 1;
        self.ns = self.ns + ns;
    }
}

/// Operations in a measured search.
pub const OPS: usize = 31;

/// An operation.
#[derive(Clone, Copy, Debug, PartialEq, Eq, Structural)]
pub enum Op {
    Evaluate,
    EvalRaceBound,
    RaceGateCached,
    RaceWinnerTable,
    EvalRouteFeatures,
    EvalNnuePrep,
    EvalNnueInfer,
    EvalWallCross,
    EvalLegalWallCount,
    EvalMiscScalar,
    RefreshDist,
    ShortestPath,
    DirMasksFromAce,
    FloodBitSq,
    FloodBitIndex,
    FloodSqFromBit,
    FloodScatter,
    UnpackSquare,
    WallCrossingCount,
    CollectWallOrientation,
    WallLegality,
    CanStep,
    GenMoves,
    TtProbe,
    TtHit,
    TtCutoff,
    TtStore,
    MakeMove,
    UnmakeMove,
    NnueFullRefresh,
    NnueIncrUpdate,
}

impl Op {
    /// Its place in the report.
    pub open spec fn place(self) -> int {
        match self {
            Op::Evaluate => 0,
            Op::EvalRaceBound => 1,
            Op::RaceGateCached => 2,
            Op::RaceWinnerTable => 3,
            Op::EvalRouteFeatures => 4,
            Op::EvalNnuePrep => 5,
            Op::EvalNnueInfer => 6,
            Op::EvalWallCross => 7,
            Op::EvalLegalWallCount => 8,
            Op::EvalMiscScalar => 9,
            Op::RefreshDist => 10,
            Op::ShortestPath => 11,
            Op::DirMasksFromAce => 12,
            Op::FloodBitSq => 13,
            Op::FloodBitIndex => 14,
            Op::FloodSqFromBit => 15,
            Op::FloodScatter => 16,
            Op::UnpackSquare => 17,
            Op::WallCrossingCount => 18,
            Op::CollectWallOrientation => 19,
            Op::WallLegality => 20,
            Op::CanStep => 21,
            Op::GenMoves => 22,
            Op::TtProbe => 23,
            Op::TtHit => 24,
            Op::TtCutoff => 25,
            Op::TtStore => 26,
            Op::MakeMove => 27,
            Op::UnmakeMove => 28,
            Op::NnueFullRefresh => 29,
            Op::NnueIncrUpdate => 30,
        }
    }

    /// Its place in the report.
    pub fn index(self) -> (i: usize)
        ensures
            i == self.place(),
            i < OPS,
    {
        match self {
            Op::Evaluate => 0,
            Op::EvalRaceBound => 1,
            Op::RaceGateCached => 2,
            Op::RaceWinnerTable => 3,
            Op::EvalRouteFeatures => 4,
            Op::EvalNnuePrep => 5,
            Op::EvalNnueInfer => 6,
            Op::EvalWallCross => 7,
            Op::EvalLegalWallCount => 8,
            Op::EvalMiscScalar => 9,
            Op::RefreshDist => 10,
            Op::ShortestPath => 11,
            Op::DirMasksFromAce => 12,
            Op::FloodBitSq => 13,
            Op::FloodBitIndex => 14,
            Op::FloodSqFromBit => 15,
            Op::FloodScatter => 16,
            Op::UnpackSquare => 17,
            Op::WallCrossingCount => 18,
            Op::CollectWallOrientation => 19,
            Op::WallLegality => 20,
            Op::CanStep => 21,
            Op::GenMoves => 22,
            Op::TtProbe => 23,
            Op::TtHit => 24,
            Op::TtCutoff => 25,
            Op::TtStore => 26,
            Op::MakeMove => 27,
            Op::UnmakeMove => 28,
            Op::NnueFullRefresh => 29,
            Op::NnueIncrUpdate => 30,
        }
    }

    /// The operation of a place.
    pub fn of_index(i: usize) -> (op: Op)
        requires
            i < OPS,
        ensures
            op.place() == i,
    {
        match i {
            0 => Op::Evaluate,
            1 => Op::EvalRaceBound,
            2 => Op::RaceGateCached,
            3 => Op::RaceWinnerTable,
            4 => Op::EvalRouteFeatures,
            5 => Op::EvalNnuePrep,
            6 => Op::EvalNnueInfer,
            7 => Op::EvalWallCross,
            8 => Op::EvalLegalWallCount,
            9 => Op::EvalMiscScalar,
            10 => Op::RefreshDist,
            11 => Op::ShortestPath,
            12 => Op::DirMasksFromAce,
            13 => Op::FloodBitSq,
            14 => Op::FloodBitIndex,
            15 => Op::FloodSqFromBit,
            16 => Op::FloodScatter,
            17 => Op::UnpackSquare,
            18 => Op::WallCrossingCount,
            19 => Op::CollectWallOrientation,
            20 => Op::WallLegality,
            21 => Op::CanStep,
            22 => Op::GenMoves,
            23 => Op::TtProbe,
            24 => Op::TtHit,
            25 => Op::TtCutoff,
            26 => Op::TtStore,
            27 => Op::MakeMove,
            28 => Op::UnmakeMove,
            29 => Op::NnueFullRefresh,
            _ => Op::NnueIncrUpdate,
        }
    }

    /// Its name in the report.
    pub open spec fn title(self) -> Seq<char> {
        match self {
            Op::Evaluate => "evaluate"@,
            Op::EvalRaceBound => "eval_race_bound"@,
            Op::RaceGateCached => "race_gate_cached"@,
            Op::RaceWinnerTable => "race_winner_table"@,
            Op::EvalRouteFeatures => "eval_route_features"@,
            Op::EvalNnuePrep => "eval_nnue_prep"@,
            Op::EvalNnueInfer => "eval_nnue_infer"@,
            Op::EvalWallCross => "eval_wall_cross"@,
            Op::EvalLegalWallCount => "eval_legal_wall_count"@,
            Op::EvalMiscScalar => "eval_misc_scalar"@,
            Op::RefreshDist => "refresh_dist"@,
            Op::ShortestPath => "shortest_path"@,
            Op::DirMasksFromAce => "dir_masks_from_ace"@,
            Op::FloodBitSq => "flood_bit_sq"@,
            Op::FloodBitIndex => "flood_bit_index"@,
            Op::FloodSqFromBit => "flood_sq_from_bit"@,
            Op::FloodScatter => "flood_scatter"@,
            Op::UnpackSquare => "unpack_square"@,
            Op::WallCrossingCount => "wall_crossing_count"@,
            Op::CollectWallOrientation => "collect_wall_orientation"@,
            Op::WallLegality => "wall_legality"@,
            Op::CanStep => "can_step"@,
            Op::GenMoves => "gen_moves"@,
            Op::TtProbe => "tt_probe"@,
            Op::TtHit => "tt_hit"@,
            Op::TtCutoff => "tt_cutoff"@,
            Op::TtStore => "tt_store"@,
            Op::MakeMove => "make_move"@,
            Op::UnmakeMove => "unmake_move"@,
            Op::NnueFullRefresh => "nnue_full_refresh"@,
            Op::NnueIncrUpdate => "nnue_incr_update"@,
        }
    }

    /// Its name in the report.
    pub fn name(self) -> (r: &'static str)
        ensures
            r@ == self.title(),
    {
        match self {
            Op::Evaluate => "evaluate",
            Op::EvalRaceBound => "eval_race_bound",
            Op::RaceGateCached => "race_gate_cached",
            Op::RaceWinnerTable => "race_winner_table",
            Op::EvalRouteFeatures => "eval_route_features",
            Op::EvalNnuePrep => "eval_nnue_prep",
            Op::EvalNnueInfer => "eval_nnue_infer",
            Op::EvalWallCross => "eval_wall_cross",
            Op::EvalLegalWallCount => "eval_legal_wall_count",
            Op::EvalMiscScalar => "eval_misc_scalar",
            Op::RefreshDist => "refresh_dist",
            Op::ShortestPath => "shortest_path",
            Op::DirMasksFromAce => "dir_masks_from_ace",
            Op::FloodBitSq => "flood_bit_sq",
            Op::FloodBitIndex => "flood_bit_index",
            Op::FloodSqFromBit => "flood_sq_from_bit",
            Op::FloodScatter => "flood_scatter",
            Op::UnpackSquare => "unpack_square",
            Op::WallCrossingCount => "wall_crossing_count",
            Op::CollectWallOrientation => "collect_wall_orientation",
            Op::WallLegality => "wall_legality",
            Op::CanStep => "can_step",
            Op::GenMoves => "gen_moves",
            Op::TtProbe => "tt_probe",
            Op::TtHit => "tt_hit",
            Op::TtCutoff => "tt_cutoff",
            Op::TtStore => "tt_store",
            Op::MakeMove => "make_move",
            Op::UnmakeMove => "unmake_move",
            Op::NnueFullRefresh => "nnue_full_refresh",
            Op::NnueIncrUpdate => "nnue_incr_update",
        }
    }
}

/// Different operations have different places.
pub proof fn lemma_places_differ(a: Op, b: Op)
    requires
        a.place() == b.place(),
    ensures
        a == b,
{
}

/// The counters of a search.
#[derive(Clone, Copy)]
pub struct BenchInstr {
    pub search_nodes: u64,
    pub stop_reason: &'static str,
    pub ops: [OpStat; 31],
    pub search_t0: Option<Deadline>,
    pub measured_ns: u128,
}

impl BenchInstr {
    /// Nothing is counted yet.
    pub open spec fn blank(self) -> bool {
        &&& self.search_nodes == 0
        &&& self.stop_reason@ == Seq::<char>::empty()
        &&& forall|i: int| 0 <= i < OPS ==> #[trigger] self.ops[i] == (OpStat { calls: 0u64, ns: 0u128 })
        &&& self.measured_ns == 0
    }

    pub fn new() -> (r: Self)
        ensures
            r.blank(),
            r.search_t0 is None,
    {
        let none: OpStat = OpStat { calls: 0, ns: 0 };
        proof {
            reveal_strlit("");
            assert(""@ =~= Seq::<char>::empty());
        }
        BenchInstr {
            search_nodes: 0,
            stop_reason: "",
            ops: [none;31],
            search_t0: None,
            measured_ns: 0,
        }
    }

    /// Forgets everything and starts the clock.
    pub fn begin_search(&mut self)
        ensures
            final(self).blank(),
            final(self).search_t0 is Some,
    {
        *self = Self::new();
        self.search_t0 = Some(Deadline::new(0));
    }

    /// Notes the nodes, and the time if the clock was running, which it stops.
    pub fn end_search(&mut self, nodes: u64)
        ensures
            final(self).search_nodes == nodes,
            final(self).search_t0 is None,
            final(self).ops == old(self).ops,
            final(self).stop_reason == old(self).stop_reason,
            old(self).search_t0 is None ==> final(self).measured_ns == old(self).measured_ns,
    {
        self.search_nodes = nodes;
        if let Some(t0) = self.search_t0 {
            self.measured_ns = t0.elapsed_ns();
        }
        self.search_t0 = None;
    }

    /// Notes why a search ended.
    pub fn set_stop_reason(&mut self, reason: &'static str)
        ensures
            *final(self) == (BenchInstr { stop_reason: reason, ..*old(self) }),
    {
        self.stop_reason = reason;
    }

    /// Counts a call that took so many nanoseconds.
    pub fn record(&mut self, op: Op, ns: u128)
        requires
            old(self).ops[op.place()].calls < u64::MAX,
            old(self).ops[op.place()].ns + ns <= u128::MAX,
        ensures
            final(self).ops@ == old(self).ops@.update(
                op.place(),
                (OpStat {
                    calls: (old(self).ops[op.place()].calls + 1) as u64,
                    ns: (old(self).ops[op.place()].ns + ns) as u128,
                }),
            ),
            final(self).search_nodes == old(self).search_nodes,
            final(self).stop_reason == old(self).stop_reason,
            final(self).measured_ns == old(self).measured_ns,
    {
        let i: usize = op.index();
        let mut s: OpStat = self.ops[i];
        s.record(ns);
        self.ops[i] = s;
    }

    /// Counts a call without its time.
    pub fn bump(&mut self, op: Op)
        requires
            old(self).ops[op.place()].calls < u64::MAX,
        ensures
            final(self).ops@ == old(self).ops@.update(
                op.place(),
                (OpStat {
                    calls: (old(self).ops[op.place()].calls + 1) as u64,
                    ns: old(self).ops[op.place()].ns,
                }),
            ),
            final(self).search_nodes == old(self).search_nodes,
            final(self).stop_reason == old(self).stop_reason,
            final(self).measured_ns == old(self).measured_ns,
    {
        self.record(op, 0);
    }
}

/// The ratios of an operation, as texts.
pub struct OpRates {
    pub calls_per_node: String,
    pub ns_per_call: String,
    pub pct_measured: String,
}

/// The operation of an index.
pub open spec fn op_at(i: int) -> Op
    recommends
        0 <= i < OPS,
{
    choose|op: Op| #[trigger] op.place() == i
}

proof fn lemma_op_at(op: Op)
    ensures
        op_at(op.place()) == op,
{
    lemma_places_differ(op_at(op.place()), op);
}

/// The line of an operation.
pub open spec fn row_text(op: Op, s: OpStat, r: OpRates) -> Seq<char> {
    ("{\"op\":\""@ + op.title()) + keyed("\",\"calls\":"@, s.calls as int) + (
    ",\"calls_per_node\":"@ + r.calls_per_node@) + keyed(",\"total_ns\":"@, s.ns as int) + (
    ",\"ns_per_call\":"@ + r.ns_per_call@) + (",\"pct_measured\":"@ + r.pct_measured@) + "}"@
}

fn push_row(t: &mut String, op: Op, s: &OpStat, r: &OpRates)
    ensures
        final(t)@ == old(t)@ + row_text(op, *s, *r),
{
    push_keyed_text(t, "{\"op\":\"", op.name());
    push_keyed(t, "\",\"calls\":", s.calls);
    push_keyed_text(t, ",\"calls_per_node\":", r.calls_per_node.as_str());
    push_text(t, ",\"total_ns\":");
    push_wide(t, s.ns);
    assert(t@ =~= old(t)@ + ("{\"op\":\""@ + op.title()) + keyed(
        "\",\"calls\":"@,
        s.calls as int,
    ) + (",\"calls_per_node\":"@ + r.calls_per_node@) + keyed(",\"total_ns\":"@, s.ns as int));
    push_keyed_text(t, ",\"ns_per_call\":", r.ns_per_call.as_str());
    push_keyed_text(t, ",\"pct_measured\":", r.pct_measured.as_str());
    push_text(t, "}");
    assert(t@ =~= old(t)@ + row_text(op, *s, *r));
}

/// The lines of the first `n` operations, with commas between.
pub open spec fn rows_text(b: BenchInstr, rates: Seq<OpRates>, n: int) -> Seq<char>
    decreases n,
{
    if n <= 0 {
        Seq::empty()
    } else if n == 1 {
        row_text(op_at(0), b.ops[0], rates[0])
    } else {
        rows_text(b, rates, n - 1).push(',') + row_text(op_at(n - 1), b.ops[n - 1], rates[n - 1])
    }
}

impl BenchInstr {
    /// The counters and the ratios as a line of JSON.
    pub open spec fn json_text(self, rates: Seq<OpRates>) -> Seq<char> {
        keyed("{\"search_nodes\":"@, self.search_nodes as int) + keyed(
            ",\"measured_ns\":"@,
            self.measured_ns as int,
        ) + (",\"stop_reason\":\""@ + self.stop_reason@) + (
        "\",\"ops\":["@ + rows_text(self, rates, OPS as int)) + "]}"@
    }

    /// The counters and the ratios as a line of JSON.
    pub fn to_json(&self, rates: &Vec<OpRates>) -> (r: String)
        requires
            rates@.len() == OPS,
        ensures
            r@ == self.json_text(rates@),
    {
        let mut rows: String = String::new();
        let mut i: usize = 0;
        assert(rows@ =~= rows_text(*self, rates@, 0));
        while i < OPS
            invariant
                i <= OPS,
                rates@.len() == OPS,
                rows@ == rows_text(*self, rates@, i as int),
            decreases OPS - i,
        {
            if i > 0 {
                rows.push(',');
            }
            let op: Op = Op::of_index(i);
            push_row(&mut rows, op, &self.ops[i], &rates[i]);
            proof {
                lemma_op_at(op);
                assert(rows@ =~= rows_text(*self, rates@, i + 1));
            }
            i += 1;
        }
        let mut s: String = String::new();
        push_keyed(&mut s, "{\"search_nodes\":", self.search_nodes);
        push_text(&mut s, ",\"measured_ns\":");
        push_wide(&mut s, self.measured_ns);
        push_keyed_text(&mut s, ",\"stop_reason\":\"", self.stop_reason);
        push_keyed_text(&mut s, "\",\"ops\":[", rows.as_str());
        push_text(&mut s, "]}");
        assert(s@ =~= self.json_text(rates@));
        s
    }
}

/// A running timer.
#[derive(Clone, Copy)]
pub struct OpTimer {
    pub op: Op,
    pub t0: Deadline,
}

impl OpTimer {
    /// Starts the timer of an operation.
    pub fn start(op: Op) -> (r: Self)
        ensures
            r.op == op,
    {
        OpTimer { op, t0: Deadline::new(0) }
    }

    /// Nanoseconds since the start.
    pub fn elapsed_ns(&self) -> (ns: u128) {
        self.t0.elapsed_ns()
    }
}

} // verus!
