//! The features of a position as a line of JSON.

use vstd::prelude::*;

use crate::ace::eval::{
    count_equal, count_of, describe, describes, eval_ok, tame, EvalMode, NetInput,
};
use crate::ace::game::AceState;
use crate::ace::search::{lemma_same_game, AceSearch};
use crate::util::text::{decimal, keyed, push_decimal, push_keyed, push_keyed_signed, push_text};

verus! {

/// Numbers for every cell that go into the features beside the distances.
#[derive(Clone, Copy)]
pub struct Planes {
    pub delta0: [u8; 81],
    pub delta1: [u8; 81],
    pub cross0: [u8; 81],
    pub cross1: [u8; 81],
    pub choke0: [u8; 81],
    pub choke1: [u8; 81],
    pub contested: [u8; 81],
}

/// The first `n` numbers, with commas between.
pub open spec fn list_text(v: Seq<u8>, n: int) -> Seq<char>
    decreases n,
{
    if n <= 0 {
        Seq::empty()
    } else if n == 1 {
        decimal(v[0] as nat)
    } else {
        list_text(v, n - 1).push(',') + decimal(v[n - 1] as nat)
    }
}

/// A list under a key; `head` ends with the opening bracket.
pub open spec fn plane_text(head: Seq<char>, v: Seq<u8>) -> Seq<char> {
    head + list_text(v, v.len() as int) + "]"@
}

/// Appends a list under a key.
fn push_plane(s: &mut String, head: &str, v: &[u8])
    ensures
        final(s)@ == old(s)@ + plane_text(head@, v@),
{
    push_text(s, head);
    let n: usize = v.len();
    let mut i: usize = 0;
    assert(s@ =~= old(s)@ + head@ + list_text(v@, 0));
    while i < n
        invariant
            i <= n,
            n == v@.len(),
            s@ == old(s)@ + head@ + list_text(v@, i as int),
        decreases n - i,
    {
        if i > 0 {
            s.push(',');
        }
        push_decimal(s, v[i] as u64);
        assert(s@ =~= old(s)@ + head@ + list_text(v@, i + 1));
        i += 1;
    }
    push_text(s, "]");
    assert(s@ =~= old(s)@ + plane_text(head@, v@));
}

/// Whose turn it is, the pawns and the hands.
pub open spec fn sides_text(x: NetInput) -> Seq<char> {
    keyed("{\"turn\":"@, x.turn as int) + keyed(",\"pawn0\":"@, x.pawn[0] as int) + keyed(
        ",\"pawn1\":"@,
        x.pawn[1] as int,
    ) + keyed(",\"wl0\":"@, x.wl[0] as int) + keyed(",\"wl1\":"@, x.wl[1] as int)
}

/// The distances, the legal walls, and how many cells are as far as the pawns.
pub open spec fn counts_text(x: NetInput) -> Seq<char> {
    let d0 = x.goal0[x.pawn[0] as int];
    let d1 = x.goal1[x.pawn[1] as int];
    keyed(",\"d0\":"@, d0 as int) + keyed(",\"d1\":"@, d1 as int) + keyed(
        ",\"legal_wall_count\":"@,
        x.legal_walls as int,
    ) + keyed(",\"corridor_width0\":"@, count_of(x.goal0@, d0, 81)) + keyed(
        ",\"corridor_width1\":"@,
        count_of(x.goal1@, d1, 81),
    )
}

fn push_sides(s: &mut String, x: &NetInput)
    ensures
        final(s)@ == old(s)@ + sides_text(*x),
{
    push_keyed(s, "{\"turn\":", x.turn as u64);
    push_keyed(s, ",\"pawn0\":", x.pawn[0] as u64);
    push_keyed(s, ",\"pawn1\":", x.pawn[1] as u64);
    push_keyed_signed(s, ",\"wl0\":", x.wl[0]);
    push_keyed_signed(s, ",\"wl1\":", x.wl[1]);
    assert(s@ =~= old(s)@ + sides_text(*x));
}

fn push_counts(s: &mut String, x: &NetInput)
    requires
        x.pawn[0] < 81,
        x.pawn[1] < 81,
    ensures
        final(s)@ == old(s)@ + counts_text(*x),
{
    let d0: u8 = x.goal0[x.pawn[0]];
    let d1: u8 = x.goal1[x.pawn[1]];
    push_keyed(s, ",\"d0\":", d0 as u64);
    push_keyed(s, ",\"d1\":", d1 as u64);
    push_keyed(s, ",\"legal_wall_count\":", x.legal_walls as u64);
    push_keyed(s, ",\"corridor_width0\":", count_equal(&x.goal0, d0) as u64);
    push_keyed(s, ",\"corridor_width1\":", count_equal(&x.goal1, d1) as u64);
    assert(s@ =~= old(s)@ + counts_text(*x));
}

/// The lists under their own names.
pub open spec fn fields_text(x: NetInput, p: Planes) -> Seq<char> {
    plane_text(",\"goal_inv_p0_field\":["@, x.goal0@) + plane_text(
        ",\"goal_inv_p1_field\":["@,
        x.goal1@,
    ) + plane_text(",\"pawn_fwd_p0_field\":["@, x.steps0@) + plane_text(
        ",\"pawn_fwd_p1_field\":["@,
        x.steps1@,
    ) + plane_text(",\"corridor_delta_p0_field\":["@, p.delta0@) + plane_text(
        ",\"corridor_delta_p1_field\":["@,
        p.delta1@,
    ) + plane_text(",\"path_cross_p0_field\":["@, p.cross0@) + plane_text(
        ",\"path_cross_p1_field\":["@,
        p.cross1@,
    ) + plane_text(",\"choke_p0_field\":["@, p.choke0@) + plane_text(
        ",\"choke_p1_field\":["@,
        p.choke1@,
    ) + plane_text(",\"contested_field\":["@, p.contested@)
}

fn push_fields(s: &mut String, x: &NetInput, p: &Planes)
    ensures
        final(s)@ == old(s)@ + fields_text(*x, *p),
{
    push_plane(s, ",\"goal_inv_p0_field\":[", &x.goal0);
    push_plane(s, ",\"goal_inv_p1_field\":[", &x.goal1);
    push_plane(s, ",\"pawn_fwd_p0_field\":[", &x.steps0);
    push_plane(s, ",\"pawn_fwd_p1_field\":[", &x.steps1);
    push_plane(s, ",\"corridor_delta_p0_field\":[", &p.delta0);
    push_plane(s, ",\"corridor_delta_p1_field\":[", &p.delta1);
    push_plane(s, ",\"path_cross_p0_field\":[", &p.cross0);
    push_plane(s, ",\"path_cross_p1_field\":[", &p.cross1);
    push_plane(s, ",\"choke_p0_field\":[", &p.choke0);
    push_plane(s, ",\"choke_p1_field\":[", &p.choke1);
    push_plane(s, ",\"contested_field\":[", &p.contested);
    assert(s@ =~= old(s)@ + fields_text(*x, *p));
}

/// Some of the lists again, under the names older readers know.
pub open spec fn aliases_text(x: NetInput, p: Planes) -> Seq<char> {
    plane_text(",\"d0_field\":["@, x.goal0@) + plane_text(",\"d1_field\":["@, x.goal1@)
        + plane_text(",\"player0_field\":["@, x.steps0@) + plane_text(
        ",\"player1_field\":["@,
        x.steps1@,
    ) + plane_text(",\"delta0_field\":["@, p.delta0@) + plane_text(
        ",\"delta1_field\":["@,
        p.delta1@,
    ) + plane_text(",\"cross0_field\":["@, p.cross0@) + plane_text(
        ",\"cross1_field\":["@,
        p.cross1@,
    ) + plane_text(",\"hw\":["@, x.hw@) + plane_text(",\"vw\":["@, x.vw@)
}

fn push_aliases(s: &mut String, x: &NetInput, p: &Planes)
    ensures
        final(s)@ == old(s)@ + aliases_text(*x, *p),
{
    push_plane(s, ",\"d0_field\":[", &x.goal0);
    push_plane(s, ",\"d1_field\":[", &x.goal1);
    push_plane(s, ",\"player0_field\":[", &x.steps0);
    push_plane(s, ",\"player1_field\":[", &x.steps1);
    push_plane(s, ",\"delta0_field\":[", &p.delta0);
    push_plane(s, ",\"delta1_field\":[", &p.delta1);
    push_plane(s, ",\"cross0_field\":[", &p.cross0);
    push_plane(s, ",\"cross1_field\":[", &p.cross1);
    push_plane(s, ",\"hw\":[", &x.hw);
    push_plane(s, ",\"vw\":[", &x.vw);
    assert(s@ =~= old(s)@ + aliases_text(*x, *p));
}

/// A position with its planes and its value.
pub open spec fn dump_text(x: NetInput, p: Planes, value: i32) -> Seq<char> {
    sides_text(x) + counts_text(x) + fields_text(x, p) + aliases_text(x, p) + keyed(
        ",\"eval\":"@,
        value as int,
    ) + "}"@
}

/// `t` tells what the net sees of the position, the planes for that, and a value
/// of the position.
pub open spec fn dump_ok<N: Fn(NetInput) -> i32, P: Fn(NetInput) -> Planes>(
    net: N,
    planes: P,
    mode: EvalMode,
    s: AceState,
    t: Seq<char>,
) -> bool {
    exists|x: NetInput, p: Planes, value: i32|
        describes(x, s) && call_ensures(planes, (x,), p) && eval_ok(net, mode, s, 0, value as int)
            && t == #[trigger] dump_text(x, p, value)
}

/// The line of a position.
pub fn dump_json(x: &NetInput, p: &Planes, value: i32) -> (r: String)
    requires
        x.pawn[0] < 81,
        x.pawn[1] < 81,
    ensures
        r@ == dump_text(*x, *p, value),
{
    let mut s: String = String::new();
    push_sides(&mut s, x);
    push_counts(&mut s, x);
    push_fields(&mut s, x, p);
    push_aliases(&mut s, x, p);
    push_keyed_signed(&mut s, ",\"eval\":", value);
    push_text(&mut s, "}");
    assert(s@ =~= dump_text(*x, *p, value));
    s
}

impl AceSearch {
    /// The features of the position and its value as a line of JSON. The planes
    /// come from a function of what the net sees.
    pub fn eval_dump_json<N: Fn(NetInput) -> i32, P: Fn(NetInput) -> Planes>(
        &mut self,
        net: &N,
        planes: &P,
    ) -> (r: String)
        requires
            old(self).ready(0),
            tame(*net),
            forall|x: NetInput| #[trigger] call_requires(*planes, (x,)),
        ensures
            final(self).ready(0),
            final(self).g@ == old(self).g@,
            final(self).config == old(self).config,
            dump_ok(*net, *planes, old(self).config.eval, old(self).g@, r@),
    {
        proof {
            reveal(AceSearch::ready);
        }
        self.position_changed();
        self.settle_in(0);
        let x: NetInput = describe(&self.g, &self.fields, &self.bridge);
        let ghost a = *self;
        let value: i32 = self.value(0, 0, net);
        proof {
            lemma_same_game(a, *self, 64);
        }
        let p: Planes = planes(x);
        dump_json(&x, &p, value)
    }
}

} // verus!
