//! The computer players' turns: each king moves its flags and builds.
use vstd::prelude::*;
use crate::common::MAX_PLAYER;
use crate::flags::{
    CALL_CAP, calls_at_most, flags_consistent, lemma_consistent_calls_bounded, lemma_consistent_same_cells, same_cells,
    scan_cap,
};
use crate::grid::{Grid, dims_ok, flag_grid_wf, grid_wf, in_array, passable, spec_is_inhabitable};
use crate::king::{
    Country, FlagPlan, King, best_build, build_post, builder_default, built, evaluated, flags_placed, king_evaluate_map,
    king_wf, place_flags,
};
use crate::state::State;

verus! {

/// `s1` is `s0` with only the flags, the map and the treasuries possibly changed.
pub open spec fn same_but_board(s0: &State, s1: &State) -> bool {
    &&& s1.king == s0.king
    &&& s1.kings_num == s0.kings_num
    &&& s1.timeline == s0.timeline
    &&& s1.show_timeline == s0.show_timeline
    &&& s1.time == s0.time
    &&& s1.map_seed == s0.map_seed
    &&& s1.controlled == s0.controlled
    &&& s1.conditions == s0.conditions
    &&& s1.inequality == s0.inequality
    &&& s1.speed == s0.speed
    &&& s1.prev_speed == s0.prev_speed
    &&& s1.dif == s0.dif
}

/// What the `n`-th king of `s0` does on its turn, following `plan`: it moves
/// the flags of its player (see `flags_placed`) and then builds (see `built`,
/// with result `r`); the other players' flags and treasuries are unchanged.
pub open spec fn king_turn(s0: &State, s1: &State, n: int, plan: &FlagPlan, r: int) -> bool {
    let k = s0.king[n];
    let pl = k.pl as int;
    &&& flags_placed(&k, &s0.grid, &s0.fg[pl], &s1.fg[pl], plan)
    &&& built(&k, &s0.grid, &s0.country[pl], &s1.grid, &s1.country[pl], r)
    &&& forall|p: int| 0 <= p < MAX_PLAYER && p != pl ==> #[trigger] s1.fg[p] == s0.fg[p] && s1.country[p] == s0.country[p]
    &&& same_but_board(s0, s1)
}

/// The states `ss` and results `rs` of the kings' turns, from `s0` on, each
/// king in order following its plan.
pub open spec fn turns_taken(s0: &State, ss: Seq<State>, rs: Seq<int>, plans: &[FlagPlan; MAX_PLAYER]) -> bool {
    &&& ss.len() == s0.kings_num + 1
    &&& rs.len() == s0.kings_num
    &&& ss[0] == *s0
    &&& forall|t: int| 0 <= t < s0.kings_num ==> #[trigger] king_turn(&ss[t], &ss[t + 1], t, &plans[t], rs[t])
}

/// After the turns, from `s1` to `s2`: when some king built, every king
/// revalues the map (see `evaluated`); otherwise nothing changes.
pub open spec fn revalued_after_turns(s1: &State, s2: &State, rs: Seq<int>) -> bool {
    if rs.contains(0) {
        &&& forall|k: int| 0 <= k < s1.kings_num ==> #[trigger] evaluated(&s1.king[k], &s2.king[k], &s2.grid, s1.dif)
        &&& forall|k: int| s1.kings_num <= k < MAX_PLAYER ==> #[trigger] s2.king[k] == s1.king[k]
        &&& s2 == (State { king: s2.king, ..*s1 })
    } else {
        *s2 == *s1
    }
}

/// The state on which the kings can take their turns: a well-formed map,
/// well-formed kings of distinct players, and flag layers whose calls leave
/// room for a turn.
pub open spec fn turns_ready(s: &State) -> bool {
    &&& grid_wf(&s.grid)
    &&& 0 <= s.kings_num <= MAX_PLAYER
    &&& forall|k: int| 0 <= k < s.kings_num ==> king_wf(#[trigger] &s.king[k])
    &&& forall|a: int, b: int|
        0 <= a < s.kings_num && 0 <= b < s.kings_num && a != b ==> #[trigger] s.king[a].pl != #[trigger] s.king[b].pl
    &&& forall|p: int| 0 <= p < MAX_PLAYER ==> flag_grid_wf(#[trigger] &s.fg[p])
    &&& forall|p: int| 0 <= p < MAX_PLAYER ==> calls_at_most(#[trigger] &s.fg[p], CALL_CAP as int)
}

/// Every player's flag layer agrees with the map (see `flags_consistent`):
/// its calls are the total attraction of its flags.
pub open spec fn flags_agree(s: &State) -> bool {
    forall|p: int| 0 <= p < MAX_PLAYER ==> flags_consistent(&s.grid, #[trigger] &s.fg[p])
}

/// While the flag layers agree with the map, their calls stay far below
/// `CALL_CAP`, so the kings can always take their turns on that account.
pub proof fn lemma_agreeing_flags_leave_room(s: &State)
    requires
        flags_agree(s),
    ensures
        forall|p: int| 0 <= p < MAX_PLAYER ==> calls_at_most(#[trigger] &s.fg[p], CALL_CAP as int),
{
    assert forall|p: int| 0 <= p < MAX_PLAYER implies calls_at_most(#[trigger] &s.fg[p], CALL_CAP as int) by {
        lemma_consistent_calls_bounded(&s.grid, &s.fg[p]);
    }
}

/// What a king builds keeps the passable positions of the map.
proof fn lemma_built_same_cells(k: &King, g0: &Grid, c0: &Country, g1: &Grid, c1: &Country, r: int)
    requires
        dims_ok(g0.width as int, g0.height as int),
        built(k, g0, c0, g1, c1, r),
    ensures
        same_cells(g0, g1),
{
    if exists|bi: int, bj: int| #[trigger] best_build(k, g0, bi, bj) && build_post(g0, c0, g1, c1, k.pl as int, bi, bj, r) {
        let (bi, bj) = choose|bi: int, bj: int| #[trigger] best_build(k, g0, bi, bj) && build_post(g0, c0, g1, c1, k.pl as int, bi, bj, r);
        assert forall|a: int, b: int| #[trigger] passable(g0, a, b) == passable(g1, a, b) by {
            if in_array(a, b) {
                assert(spec_is_inhabitable(g0.tiles[a][b].cl) == spec_is_inhabitable(g1.tiles[a][b].cl));
            }
        }
    } else {
        assert forall|a: int, b: int| #[trigger] passable(g0, a, b) == passable(g1, a, b) by {}
    }
}

/// Every king, in order, moves its flags following its plan (`plans[n]` for
/// the `n`-th king) and builds; when some king built, all kings revalue the
/// map.
pub fn kings_move(s: &mut State, plans: &[FlagPlan; MAX_PLAYER])
    requires
        turns_ready(old(s)),
    ensures
        exists|ss: Seq<State>, rs: Seq<int>|
            #[trigger] turns_taken(old(s), ss, rs, plans) && revalued_after_turns(&ss[ss.len() - 1], final(s), rs),
        grid_wf(&final(s).grid),
        forall|p: int| 0 <= p < MAX_PLAYER ==> flag_grid_wf(#[trigger] &final(s).fg[p]),
        forall|p: int| 0 <= p < MAX_PLAYER ==> calls_at_most(#[trigger] &final(s).fg[p], scan_cap()),
        flags_agree(old(s)) ==> flags_agree(final(s)),
{
    let ghost s0 = *s;
    let ghost mut ss: Seq<State> = seq![*s];
    let ghost mut rs: Seq<int> = Seq::empty();
    let n = s.kings_num as usize;
    let mut ev = false;
    for i in 0..n
        invariant
            n == s0.kings_num,
            turns_ready(&s0),
            ss.len() == i + 1,
            rs.len() == i,
            ss[0] == s0,
            ss[i as int] == *s,
            forall|t: int| 0 <= t < i ==> #[trigger] king_turn(&ss[t], &ss[t + 1], t, &plans[t], rs[t]),
            same_but_board(&s0, s),
            grid_wf(&s.grid),
            forall|p: int| 0 <= p < MAX_PLAYER ==> flag_grid_wf(#[trigger] &s.fg[p]),
            forall|p: int| 0 <= p < MAX_PLAYER ==> calls_at_most(#[trigger] &s.fg[p], scan_cap()),
            forall|p: int|
                0 <= p < MAX_PLAYER && (forall|m: int| 0 <= m < i ==> #[trigger] s0.king[m].pl != p) ==> calls_at_most(
                    #[trigger] &s.fg[p],
                    CALL_CAP as int,
                ),
            ev == rs.contains(0),
            flags_agree(&s0) ==> flags_agree(s),
    {
        let k = s.king[i];
        let pl = k.pl as usize;
        proof {
            assert(king_wf(&s0.king[i as int]));
            assert forall|m: int| 0 <= m < i implies #[trigger] s0.king[m].pl != pl by {
                assert(s0.king[m].pl != s0.king[i as int].pl);
            }
            assert(calls_at_most(&s.fg[pl as int], CALL_CAP as int));
        }
        let ghost sb = *s;
        let mut f = s.fg[pl];
        place_flags(&k, &s.grid, &mut f, &plans[i]);
        let mut c = s.country[pl];
        let mut g = s.grid;
        let r = builder_default(&k, &mut c, &mut g, &mut f);
        s.fg[pl] = f;
        s.country[pl] = c;
        s.grid = g;
        ev = ev || r == 0;
        proof {
            assert(king_turn(&sb, s, i as int, &plans[i as int], r as int));
            if flags_agree(&s0) {
                assert(flags_agree(&sb));
                lemma_built_same_cells(&k, &sb.grid, &sb.country[pl as int], &s.grid, &s.country[pl as int], r as int);
                assert forall|p: int| 0 <= p < MAX_PLAYER implies flags_consistent(&s.grid, #[trigger] &s.fg[p]) by {
                    assert(flags_consistent(&sb.grid, &sb.fg[p]));
                    if p == pl {
                        assert(flags_consistent(&sb.grid, &s.fg[p]));
                    } else {
                        assert(s.fg[p] == sb.fg[p]);
                    }
                    lemma_consistent_same_cells(&sb.grid, &s.grid, &s.fg[p]);
                }
            }
            let ss1 = ss.push(*s);
            let rs1 = rs.push(r as int);
            assert forall|t: int| 0 <= t < i + 1 implies #[trigger] king_turn(&ss1[t], &ss1[t + 1], t, &plans[t], rs1[t]) by {
                if t < i {
                    assert(ss1[t] == ss[t] && ss1[t + 1] == ss[t + 1] && rs1[t] == rs[t]);
                }
            }
            assert(rs1.contains(0) == (rs.contains(0) || r == 0)) by {
                if r == 0 {
                    assert(rs1[i as int] == 0);
                }
                if rs.contains(0) {
                    let t = choose|t: int| 0 <= t < rs.len() && rs[t] == 0;
                    assert(rs1[t] == 0);
                }
                if rs1.contains(0) {
                    let t = choose|t: int| 0 <= t < rs1.len() && rs1[t] == 0;
                    if t < i {
                        assert(rs[t] == 0);
                    }
                }
            }
            assert forall|p: int|
                0 <= p < MAX_PLAYER && (forall|m: int| 0 <= m < i + 1 ==> #[trigger] s0.king[m].pl != p) implies calls_at_most(
                #[trigger] &s.fg[p],
                CALL_CAP as int,
            ) by {
                assert(s0.king[i as int].pl != p);
                assert(s.fg[p] == sb.fg[p]);
            }
            ss = ss1;
            rs = rs1;
        }
    }
    let ghost s1 = *s;
    if ev {
        for i in 0..n
            invariant
                n == s0.kings_num,
                turns_ready(&s0),
                same_but_board(&s0, &s1),
                forall|m: int| 0 <= m < i ==> #[trigger] evaluated(&s1.king[m], &s.king[m], &s.grid, s1.dif),
                forall|m: int| i <= m < MAX_PLAYER ==> #[trigger] s.king[m] == s1.king[m],
                *s == (State { king: s.king, ..s1 }),
                dims_ok(s.grid.width as int, s.grid.height as int),
                flags_agree(&s0) ==> flags_agree(&s1),
        {
            let mut kg = s.king[i];
            proof {
                assert(king_wf(&s0.king[i as int]));
            }
            king_evaluate_map(&mut kg, &s.grid, s.dif);
            s.king[i] = kg;
        }
    }
    proof {
        assert(turns_taken(&s0, ss, rs, plans));
    }
}

} // verus!
