//! Checks, before a call, of the conditions that the simulation step, the
//! kings' turns and the flags ask of the state.
use vstd::prelude::*;
use crate::common::{FLAG_OFF, FLAG_ON, MAX_HEIGHT, MAX_PLAYER, MAX_POP, MAX_WIDTH};
use crate::flags::{CALL_CAP, call_room, calls_at_most};
use crate::grid::{FlagGrid, Grid, dims_ok, flag_grid_wf, grid_wf, in_array, pop, tile_wf};
use crate::king::{KING_VALUE_MAX, King, king_wf};
use crate::sim::{GOLD_CAP, step_ready};
use crate::state::State;
use crate::turns::turns_ready;

verus! {

/// Whether the dimensions fit the arrays and every tile is well formed.
pub fn grid_ok(g: &Grid) -> (r: bool)
    ensures
        r == grid_wf(g),
{
    if !(0 <= g.width && g.width <= MAX_WIDTH as i32 && 0 <= g.height && g.height <= MAX_HEIGHT as i32) {
        return false;
    }
    for i in 0..MAX_WIDTH
        invariant
            dims_ok(g.width as int, g.height as int),
            forall|a: int, b: int| 0 <= a < i && 0 <= b < MAX_HEIGHT ==> tile_wf(#[trigger] g.tiles[a][b]),
    {
        for j in 0..MAX_HEIGHT
            invariant
                dims_ok(g.width as int, g.height as int),
                i < MAX_WIDTH,
                forall|a: int, b: int|
                    (0 <= a < i && 0 <= b < MAX_HEIGHT) || (a == i && 0 <= b < j) ==> tile_wf(#[trigger] g.tiles[a][b]),
        {
            let t = g.tiles[i][j];
            if t.pl < 0 || t.pl >= MAX_PLAYER as i32 {
                proof {
                    assert(!tile_wf(g.tiles[i as int][j as int]));
                    assert(in_array(i as int, j as int));
                }
                return false;
            }
            for p in 0..MAX_PLAYER
                invariant
                    i < MAX_WIDTH,
                    j < MAX_HEIGHT,
                    t == g.tiles[i as int][j as int],
                    forall|q: int| 0 <= q < p ==> 0 <= #[trigger] pop(t, q) <= MAX_POP,
            {
                if t.units[p][0] < 0 || t.units[p][0] > MAX_POP {
                    proof {
                        assert(!(0 <= pop(t, p as int) <= MAX_POP));
                        assert(!tile_wf(g.tiles[i as int][j as int]));
                        assert(in_array(i as int, j as int));
                    }
                    return false;
                }
            }
        }
    }
    proof {
        assert forall|a: int, b: int| in_array(a, b) implies tile_wf(#[trigger] g.tiles[a][b]) by {}
    }
    true
}

/// Whether a flag layer is well formed and its calls lie between 0 and `cap`.
pub fn flags_ok(fg: &FlagGrid, cap: i32) -> (r: bool)
    ensures
        r == (flag_grid_wf(fg) && calls_at_most(fg, cap as int)),
{
    if !(0 <= fg.width && fg.width <= MAX_WIDTH as i32 && 0 <= fg.height && fg.height <= MAX_HEIGHT as i32) {
        return false;
    }
    for i in 0..MAX_WIDTH
        invariant
            forall|a: int, b: int|
                0 <= a < i && 0 <= b < MAX_HEIGHT ==> (#[trigger] fg.flag[a][b] == FLAG_ON || fg.flag[a][b] == FLAG_OFF),
            forall|a: int, b: int| 0 <= a < i && 0 <= b < MAX_HEIGHT ==> 0 <= #[trigger] fg.call[a][b] <= cap,
    {
        for j in 0..MAX_HEIGHT
            invariant
                i < MAX_WIDTH,
                forall|a: int, b: int|
                    (0 <= a < i && 0 <= b < MAX_HEIGHT) || (a == i && 0 <= b < j) ==> (#[trigger] fg.flag[a][b]
                        == FLAG_ON || fg.flag[a][b] == FLAG_OFF),
                forall|a: int, b: int|
                    (0 <= a < i && 0 <= b < MAX_HEIGHT) || (a == i && 0 <= b < j) ==> 0 <= #[trigger] fg.call[a][b] <= cap,
        {
            if !(fg.flag[i][j] == FLAG_ON || fg.flag[i][j] == FLAG_OFF) || fg.call[i][j] < 0 || fg.call[i][j] > cap {
                proof {
                    assert(in_array(i as int, j as int));
                }
                return false;
            }
        }
    }
    proof {
        assert forall|a: int, b: int| in_array(a, b) implies (#[trigger] fg.flag[a][b] == FLAG_ON || fg.flag[a][b] == FLAG_OFF) by {}
        assert forall|a: int, b: int| in_array(a, b) implies 0 <= #[trigger] fg.call[a][b] <= cap by {}
        assert forall|a: int, b: int| in_array(a, b) implies 0 <= #[trigger] fg.call[a][b] by {}
    }
    true
}

/// Whether the calls of a flag layer leave room for an attraction of strength `val`.
pub fn has_call_room(fg: &FlagGrid, val: i32) -> (r: bool)
    ensures
        r == call_room(fg, val),
{
    let room: i32 = if val > 0 {
        i32::MAX - val
    } else {
        i32::MAX
    };
    proof {
        assert(room == i32::MAX - crate::common::spec_max(val as int, 0));
    }
    for i in 0..MAX_WIDTH
        invariant
            room == i32::MAX - crate::common::spec_max(val as int, 0),
            forall|a: int, b: int|
                0 <= a < i && 0 <= b < MAX_HEIGHT ==> 0 <= #[trigger] fg.call[a][b] && fg.call[a][b] <= room,
    {
        for j in 0..MAX_HEIGHT
            invariant
                i < MAX_WIDTH,
                room == i32::MAX - crate::common::spec_max(val as int, 0),
                forall|a: int, b: int|
                    (0 <= a < i && 0 <= b < MAX_HEIGHT) || (a == i && 0 <= b < j) ==> 0 <= #[trigger] fg.call[a][b]
                        && fg.call[a][b] <= room,
        {
            if fg.call[i][j] < 0 || fg.call[i][j] > room {
                proof {
                    assert(in_array(i as int, j as int));
                }
                return false;
            }
        }
    }
    proof {
        assert forall|a: int, b: int| in_array(a, b) implies 0 <= #[trigger] fg.call[a][b] && fg.call[a][b]
            + crate::common::spec_max(val as int, 0) <= i32::MAX by {}
    }
    true
}

/// Whether king `k` plays a player and values every position between 0 and `KING_VALUE_MAX`.
pub fn king_ok(k: &King) -> (r: bool)
    ensures
        r == king_wf(k),
{
    if k.pl < 0 || k.pl >= MAX_PLAYER as i32 {
        return false;
    }
    for i in 0..MAX_WIDTH
        invariant
            forall|a: int, b: int| 0 <= a < i && 0 <= b < MAX_HEIGHT ==> 0 <= #[trigger] k.value[a][b] <= KING_VALUE_MAX,
    {
        for j in 0..MAX_HEIGHT
            invariant
                i < MAX_WIDTH,
                forall|a: int, b: int|
                    (0 <= a < i && 0 <= b < MAX_HEIGHT) || (a == i && 0 <= b < j) ==> 0 <= #[trigger] k.value[a][b]
                        <= KING_VALUE_MAX,
        {
            if k.value[i][j] < 0 || k.value[i][j] > KING_VALUE_MAX {
                proof {
                    assert(in_array(i as int, j as int));
                }
                return false;
            }
        }
    }
    proof {
        assert forall|a: int, b: int| in_array(a, b) implies 0 <= #[trigger] k.value[a][b] <= KING_VALUE_MAX by {}
    }
    true
}

/// Whether a simulation step can run on `s` (see `step_ready`).
pub fn can_step(s: &State) -> (r: bool)
    ensures
        r == step_ready(s),
{
    if !grid_ok(&s.grid) {
        return false;
    }
    if s.time == u64::MAX || s.kings_num < 0 || s.kings_num > MAX_PLAYER as i32 {
        return false;
    }
    for p in 0..MAX_PLAYER
        invariant
            grid_wf(&s.grid),
            s.time < u64::MAX,
            0 <= s.kings_num <= MAX_PLAYER,
            forall|q: int| 0 <= q < p ==> flag_grid_wf(#[trigger] &s.fg[q]),
            forall|q: int| 0 <= q < p ==> #[trigger] s.country[q].gold <= GOLD_CAP,
    {
        if !flags_ok(&s.fg[p], i32::MAX) || s.country[p].gold > GOLD_CAP {
            return false;
        }
    }
    let n = s.kings_num as usize;
    for k in 0..n
        invariant
            n == s.kings_num,
            0 <= s.kings_num <= MAX_PLAYER,
            grid_wf(&s.grid),
            s.time < u64::MAX,
            forall|q: int| 0 <= q < MAX_PLAYER ==> flag_grid_wf(#[trigger] &s.fg[q]),
            forall|q: int| 0 <= q < MAX_PLAYER ==> #[trigger] s.country[q].gold <= GOLD_CAP,
            forall|m: int| 0 <= m < k ==> king_wf(#[trigger] &s.king[m]),
    {
        if !king_ok(&s.king[k]) {
            return false;
        }
    }
    true
}

/// Whether the kings can take their turns on `s` (see `turns_ready`).
pub fn can_take_turns(s: &State) -> (r: bool)
    ensures
        r == turns_ready(s),
{
    if !grid_ok(&s.grid) {
        return false;
    }
    if s.kings_num < 0 || s.kings_num > MAX_PLAYER as i32 {
        return false;
    }
    for p in 0..MAX_PLAYER
        invariant
            grid_wf(&s.grid),
            0 <= s.kings_num <= MAX_PLAYER,
            forall|q: int| 0 <= q < p ==> flag_grid_wf(#[trigger] &s.fg[q]),
            forall|q: int| 0 <= q < p ==> calls_at_most(#[trigger] &s.fg[q], CALL_CAP as int),
    {
        if !flags_ok(&s.fg[p], CALL_CAP) {
            return false;
        }
    }
    let n = s.kings_num as usize;
    for k in 0..n
        invariant
            n == s.kings_num,
            0 <= s.kings_num <= MAX_PLAYER,
            grid_wf(&s.grid),
            forall|q: int| 0 <= q < MAX_PLAYER ==> flag_grid_wf(#[trigger] &s.fg[q]),
            forall|q: int| 0 <= q < MAX_PLAYER ==> calls_at_most(#[trigger] &s.fg[q], CALL_CAP as int),
            forall|m: int| 0 <= m < k ==> king_wf(#[trigger] &s.king[m]),
            forall|a: int, b: int| 0 <= a < k && 0 <= b < k && a != b ==> #[trigger] s.king[a].pl != #[trigger] s.king[b].pl,
    {
        if !king_ok(&s.king[k]) {
            return false;
        }
        for m in 0..k
            invariant
                k < n,
                n == s.kings_num,
                0 <= s.kings_num <= MAX_PLAYER,
                forall|a: int, b: int|
                    0 <= a < k && 0 <= b < k && a != b ==> #[trigger] s.king[a].pl != #[trigger] s.king[b].pl,
                forall|a: int| 0 <= a < m ==> #[trigger] s.king[a].pl != s.king[k as int].pl,
        {
            if s.king[m].pl == s.king[k].pl {
                return false;
            }
        }
    }
    true
}

} // verus!
