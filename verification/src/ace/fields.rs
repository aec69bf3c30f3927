//! Distances to both goal rows, kept over the plies of a search.
//!
//! Each ply has arrays of its own. A ply that places a wall computes a
//! player's distances anew only where the wall cuts a step of some shortest
//! way; else it goes on with the arrays of an earlier ply.

use vstd::prelude::*;

use crate::ace::game::{
    crosses, grid_player, is_h_wall, is_v_wall, wall_slot, AceGame, AceState,
};
use crate::path::distance::is_field;
use crate::path::graph::{
    dist, goal_squares, is_dist, lemma_dist_exists, lemma_dist_is, lemma_dist_reach,
    lemma_wall_steps_stay, reach, toward, wall_steps, within, Squares, StepRel,
};
use crate::util::bits::lemma_ext64;
use crate::util::grid::{lemma_with_slot, with_slot};

verus! {

/// Plies of a search.
pub const MAX_PLY: usize = 64;

/// Fewer steps reach no more.
proof fn lemma_fewer(st: StepRel, st2: StepRel, src: Squares, sq: int, n: nat)
    requires
        forall|i: int, d: int| #[trigger] st2(i, d) ==> st(i, d),
        within(st2, src, sq, n),
    ensures
        within(st, src, sq, n),
    decreases n,
{
    if n > 0 {
        let m = (n - 1) as nat;
        if within(st2, src, sq, m) {
            lemma_fewer(st, st2, src, sq, m);
        } else if st2(sq + 9, 0) && within(st2, src, sq + 9, m) {
            lemma_fewer(st, st2, src, sq + 9, m);
        } else if st2(sq - 9, 1) && within(st2, src, sq - 9, m) {
            lemma_fewer(st, st2, src, sq - 9, m);
        } else if st2(sq + 1, 2) && within(st2, src, sq + 1, m) {
            lemma_fewer(st, st2, src, sq + 1, m);
        } else {
            lemma_fewer(st, st2, src, sq - 1, m);
        }
    }
}

/// The steps of `st` that `st2` lacks join squares of equal distance.
pub open spec fn idle_cut(st: StepRel, st2: StepRel, field: Seq<u8>) -> bool {
    &&& forall|i: int, d: int| #[trigger] st2(i, d) ==> st(i, d)
    &&& forall|i: int, d: int| #[trigger]
        st(i, d) ==> 0 <= i < 81 && 0 <= toward(i, d) < 81 && (st2(i, d) || field[i]
            == field[toward(i, d)])
}

/// One step of a shortest way survives an idle cut.
proof fn lemma_step_survives(
    st: StepRel,
    st2: StepRel,
    src: Squares,
    field: Seq<u8>,
    from: int,
    d: int,
    n: nat,
)
    requires
        is_field(field, st, src),
        idle_cut(st, st2, field),
        st(from, d),
        within(st, src, from, (n - 1) as nat),
        n > 0,
        is_dist(st, src, toward(from, d), n),
        0 <= toward(from, d) < 81,
    ensures
        st2(from, d),
{
    let sq = toward(from, d);
    lemma_dist_is(st, src, sq, n);
    lemma_dist_exists(st, src, from, (n - 1) as nat);
    let k = choose|k: nat| k <= n - 1 && is_dist(st, src, from, k);
    lemma_dist_is(st, src, from, k);
    assert(field[sq] == n);
    assert(field[from] == k);
}

/// What was reached in `n` steps still is after an idle cut.
proof fn lemma_idle_within(
    st: StepRel,
    st2: StepRel,
    src: Squares,
    field: Seq<u8>,
    sq: int,
    n: nat,
)
    requires
        is_field(field, st, src),
        idle_cut(st, st2, field),
        0 <= sq < 81,
        within(st, src, sq, n),
    ensures
        within(st2, src, sq, n),
    decreases n,
{
    if n > 0 {
        let m = (n - 1) as nat;
        if within(st, src, sq, m) {
            lemma_idle_within(st, st2, src, field, sq, m);
        } else {
            assert(is_dist(st, src, sq, n));
            if st(sq + 9, 0) && within(st, src, sq + 9, m) {
                lemma_step_survives(st, st2, src, field, sq + 9, 0, n);
                lemma_idle_within(st, st2, src, field, sq + 9, m);
            } else if st(sq - 9, 1) && within(st, src, sq - 9, m) {
                lemma_step_survives(st, st2, src, field, sq - 9, 1, n);
                lemma_idle_within(st, st2, src, field, sq - 9, m);
            } else if st(sq + 1, 2) && within(st, src, sq + 1, m) {
                lemma_step_survives(st, st2, src, field, sq + 1, 2, n);
                lemma_idle_within(st, st2, src, field, sq + 1, m);
            } else {
                assert(st(sq - 1, 3) && within(st, src, sq - 1, m));
                lemma_step_survives(st, st2, src, field, sq - 1, 3, n);
                lemma_idle_within(st, st2, src, field, sq - 1, m);
            }
        }
    }
}

/// Steps between squares of equal distance lie on no shortest way: cutting
/// them leaves every distance as it was.
pub proof fn lemma_idle_cut(st: StepRel, st2: StepRel, src: Squares, field: Seq<u8>)
    requires
        is_field(field, st, src),
        idle_cut(st, st2, field),
    ensures
        is_field(field, st2, src),
{
    assert forall|sq: int| 0 <= sq < 81 implies dist(st, src, sq) == dist(st2, src, sq) && reach(
        st,
        src,
        sq,
    ) == #[trigger] reach(st2, src, sq) by {
        if reach(st, src, sq) {
            lemma_dist_reach(st, src, sq);
            let k = dist(st, src, sq) as nat;
            lemma_idle_within(st, st2, src, field, sq, k);
            if k > 0 && within(st2, src, sq, (k - 1) as nat) {
                lemma_fewer(st, st2, src, sq, (k - 1) as nat);
            }
            assert(is_dist(st2, src, sq, k));
            lemma_dist_is(st2, src, sq, k);
        } else if reach(st2, src, sq) {
            let n = choose|n: nat| within(st2, src, sq, n);
            lemma_fewer(st, st2, src, sq, n);
        }
    }
    assert forall|sq: int| 0 <= sq < 81 implies #[trigger] field[sq] == dist(st2, src, sq) by {
        assert(reach(st, src, sq) == reach(st2, src, sq));
    }
    assert forall|sq: int| 0 <= sq < 81 implies (#[trigger] field[sq] != 255) == reach(st2, src, sq) by {
        assert(reach(st, src, sq) == reach(st2, src, sq));
    }
}

/// Which steps a wall takes.
proof fn lemma_wall_cut(h: u64, v: u64, wall_type: int, s: int, sq: int, d: int)
    requires
        0 <= s < 64,
        0 <= wall_type < 2,
    ensures
        ({
            let h2 = if wall_type == 0 {
                with_slot(h, s / 8, s % 8, true)
            } else {
                h
            };
            let v2 = if wall_type == 0 {
                v
            } else {
                with_slot(v, s / 8, s % 8, true)
            };
            &&& wall_steps(h2, v2)(sq, d) ==> wall_steps(h, v)(sq, d)
            &&& wall_steps(h, v)(sq, d) && !wall_steps(h2, v2)(sq, d) ==> crosses(
                wall_type,
                s,
                sq,
                d,
            )
        }),
{
    let r = sq / 9;
    let c = sq % 9;
    let sr = s / 8;
    let sc = s % 8;
    assert(sq == r * 9 + c);
    assert(s == sr * 8 + sc);
    if wall_type == 0 {
        lemma_with_slot(h, sr, sc, true, r, c);
        lemma_with_slot(h, sr, sc, true, r, c - 1);
        lemma_with_slot(h, sr, sc, true, r - 1, c);
        lemma_with_slot(h, sr, sc, true, r - 1, c - 1);
    } else {
        lemma_with_slot(v, sr, sc, true, r, c);
        lemma_with_slot(v, sr, sc, true, r - 1, c);
        lemma_with_slot(v, sr, sc, true, r, c - 1);
        lemma_with_slot(v, sr, sc, true, r - 1, c - 1);
    }
}

/// A wall across two steps between cells of equal distance keeps the field.
proof fn lemma_idle_wall(h: u64, v: u64, wall_type: int, s: int, p: int, field: Seq<u8>)
    requires
        0 <= s < 64,
        0 <= wall_type < 2,
        is_field(field, wall_steps(h, v), goal_squares(grid_player(p))),
        ({
            let a = s / 8 * 9 + s % 8;
            if wall_type == 0 {
                field[a] == field[a + 9] && field[a + 1] == field[a + 10]
            } else {
                field[a] == field[a + 1] && field[a + 9] == field[a + 10]
            }
        }),
    ensures
        ({
            let h2 = if wall_type == 0 {
                with_slot(h, s / 8, s % 8, true)
            } else {
                h
            };
            let v2 = if wall_type == 0 {
                v
            } else {
                with_slot(v, s / 8, s % 8, true)
            };
            is_field(field, wall_steps(h2, v2), goal_squares(grid_player(p)))
        }),
{
    let h2 = if wall_type == 0 {
        with_slot(h, s / 8, s % 8, true)
    } else {
        h
    };
    let v2 = if wall_type == 0 {
        v
    } else {
        with_slot(v, s / 8, s % 8, true)
    };
    let st = wall_steps(h, v);
    let st2 = wall_steps(h2, v2);
    assert forall|i: int, d: int| #[trigger] st2(i, d) implies st(i, d) by {
        lemma_wall_cut(h, v, wall_type, s, i, d);
    }
    assert forall|i: int, d: int| #[trigger] st(i, d) implies 0 <= i < 81 && 0 <= toward(i, d) < 81
        && (st2(i, d) || field[i] == field[toward(i, d)]) by {
        lemma_wall_cut(h, v, wall_type, s, i, d);
        lemma_wall_steps_stay(h, v, i, d);
    }
    lemma_idle_cut(st, st2, goal_squares(grid_player(p)), field);
}

pub struct DistFields {
    pub d0: Vec<[u8; 81]>,
    pub d1: Vec<[u8; 81]>,
    /// The arrays in use.
    pub idx0: usize,
    pub idx1: usize,
    /// Wall count of the position that they are of, -1 for none.
    pub stamp: i32,
}

impl DistFields {
    pub open spec fn sized(self) -> bool {
        self.d0@.len() == 64 && self.d1@.len() == 64 && self.idx0 < 64 && self.idx1 < 64
    }

    /// The arrays in use hold the distances of the position.
    pub open spec fn valid_for(self, s: AceState) -> bool {
        &&& self.sized()
        &&& is_field(
            self.d0[self.idx0 as int]@,
            wall_steps(s.h, s.v),
            goal_squares(grid_player(0)),
        )
        &&& is_field(
            self.d1[self.idx1 as int]@,
            wall_steps(s.h, s.v),
            goal_squares(grid_player(1)),
        )
    }

    /// The player's distances in use.
    pub open spec fn field_spec(self, p: int) -> Seq<u8> {
        if p == 0 {
            self.d0[self.idx0 as int]@
        } else {
            self.d1[self.idx1 as int]@
        }
    }

    /// The last move of the position was a wall.
    pub open spec fn after_wall(s: AceState) -> bool {
        s.hist.len() > 0 && s.hist.last().m >= 100
    }

    /// The wall count tells the truth: with that of the position the arrays
    /// are of it, and with one less after a wall they are of the position
    /// before.
    pub open spec fn fits(self, s: AceState) -> bool {
        &&& self.sized()
        &&& self.stamp == s.stamp ==> self.valid_for(s)
        &&& self.stamp == s.stamp - 1 && s.stamp > 0 && Self::after_wall(s) ==> s.undoable() && self.valid_for(
            s.before(),
        )
    }

    pub fn new() -> (r: Self)
        ensures
            r.sized(),
            r.stamp == -1,
            r.idx0 == 0,
            r.idx1 == 0,
    {
        DistFields {
            d0: vec![[0u8; 81]; 64],
            d1: vec![[0u8; 81]; 64],
            idx0: 0,
            idx1: 0,
            stamp: -1,
        }
    }

    /// Forgets which position the arrays are of.
    pub fn invalidate(&mut self)
        requires
            old(self).sized(),
        ensures
            *final(self) == (DistFields { stamp: -1i32, ..*old(self) }),
            forall|s: AceState| s.wf() ==> #[trigger] final(self).fits(s),
    {
        self.stamp = -1;
    }

    /// The player's distances in use.
    pub fn field(&self, p: usize) -> (f: &[u8; 81])
        requires
            self.sized(),
        ensures
            *f == (if p == 0 {
                self.d0[self.idx0 as int]
            } else {
                self.d1[self.idx1 as int]
            }),
    {
        if p == 0 {
            &self.d0[self.idx0]
        } else {
            &self.d1[self.idx1]
        }
    }

    /// Makes the arrays in use those of the position. Only the arrays of `ply`
    /// are written.
    pub fn refresh(&mut self, g: &AceGame, ply: usize)
        requires
            g.wf(),
            ply < 64,
            old(self).fits(g@),
        ensures
            final(self).valid_for(g@),
            final(self).stamp == g@.stamp,
            final(self).fits(g@),
            final(self).idx0 == old(self).idx0 || final(self).idx0 == ply,
            final(self).idx1 == old(self).idx1 || final(self).idx1 == ply,
            forall|i: int|
                0 <= i < 64 && i != ply ==> #[trigger] final(self).d0[i] == old(self).d0[i],
            forall|i: int|
                0 <= i < 64 && i != ply ==> #[trigger] final(self).d1[i] == old(self).d1[i],
            old(self).stamp == g@.stamp ==> *final(self) == *old(self),
    {
        let stamp: i32 = g.wall_stamp;
        if self.stamp == stamp {
            return ;
        }
        let n: usize = g.hist.len();
        if n > 0 && stamp > 0 && self.stamp == stamp - 1 {
            let m: i16 = g.hist[n - 1].m;
            if m >= 100 {
                let s: usize = (m % 100) as usize;
                let a: usize = s / 8 * 9 + s % 8;
                let wall_type: usize = if m < 200 {
                    0
                } else {
                    1
                };
                let (b2, c2): (usize, usize) = if m < 200 {
                    (a + 9, a + 1)
                } else {
                    (a + 1, a + 9)
                };
                let e2: usize = a + 10;
                proof {
                    lemma_before_wall(g@);
                }
                let cut0: bool = self.d0[self.idx0][a] != self.d0[self.idx0][b2]
                    || self.d0[self.idx0][c2] != self.d0[self.idx0][e2];
                if cut0 {
                    self.idx0 = ply;
                    let mut f: [u8; 81] = [255u8; 81];
                    g.compute_dist(0, &mut f);
                    self.d0.set(ply, f);
                } else {
                    proof {
                        let b = g@.before();
                        lemma_idle_wall(
                            b.h,
                            b.v,
                            wall_type as int,
                            s as int,
                            0,
                            self.d0[self.idx0 as int]@,
                        );
                    }
                }
                let cut1: bool = self.d1[self.idx1][a] != self.d1[self.idx1][b2]
                    || self.d1[self.idx1][c2] != self.d1[self.idx1][e2];
                if cut1 {
                    self.idx1 = ply;
                    let mut f: [u8; 81] = [255u8; 81];
                    g.compute_dist(1, &mut f);
                    self.d1.set(ply, f);
                } else {
                    proof {
                        let b = g@.before();
                        lemma_idle_wall(
                            b.h,
                            b.v,
                            wall_type as int,
                            s as int,
                            1,
                            self.d1[self.idx1 as int]@,
                        );
                    }
                }
                self.stamp = stamp;
                return ;
            }
        }
        self.idx0 = ply;
        self.idx1 = ply;
        let mut f0: [u8; 81] = [255u8; 81];
        g.compute_dist(0, &mut f0);
        self.d0.set(ply, f0);
        let mut f1: [u8; 81] = [255u8; 81];
        g.compute_dist(1, &mut f1);
        self.d1.set(ply, f1);
        self.stamp = stamp;
    }
}

/// A wall that was just placed, put back over the position before it.
proof fn lemma_before_wall(s: AceState)
    requires
        s.undoable(),
        s.hist.last().m >= 100,
    ensures
        is_h_wall(s.hist.last().m) || is_v_wall(s.hist.last().m),
        0 <= wall_slot(s.hist.last().m) < 64,
        ({
            let w = wall_slot(s.hist.last().m);
            let b = s.before();
            if is_h_wall(s.hist.last().m) {
                s.h == with_slot(b.h, w / 8, w % 8, true) && s.v == b.v
            } else {
                s.v == with_slot(b.v, w / 8, w % 8, true) && s.h == b.h
            }
        }),
{
    let m = s.hist.last().m;
    let w = wall_slot(m);
    let x = if is_h_wall(m) {
        s.h
    } else {
        s.v
    };
    let y = with_slot(x, w / 8, w % 8, false);
    let z = with_slot(y, w / 8, w % 8, true);
    assert forall|i: int| 0 <= i < 64 implies #[trigger] crate::util::bits::bit64(z, i)
        == crate::util::bits::bit64(x, i) by {
        lemma_with_slot(x, w / 8, w % 8, false, i / 8, i % 8);
        lemma_with_slot(y, w / 8, w % 8, true, i / 8, i % 8);
        assert(i == i / 8 * 8 + i % 8);
    }
    lemma_ext64(z, x);
}

} // verus!
