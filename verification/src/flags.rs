//! Flags: placing one spreads an attraction over the map, removing it takes
//! the same attraction away.
use vstd::prelude::*;
use crate::common::{FLAG_OFF, FLAG_ON, FLAG_POWER, MAX_HEIGHT, MAX_WIDTH};
use crate::flood::{
    clamp, raise_range, spread, spread_closed, spread_justified, spread_post, spread_room, zero_layer,
    spec_abs,
};
use crate::grid::{FlagGrid, Grid, Layer, adjacent, dims_ok, flag_grid_wf, in_array, in_grid, is_inhabitable, passable};
use crate::common::spec_max;

verus! {

/// `u` is the influence of a spread of `val` from `(x, y)` over an empty layer.
pub open spec fn is_influence(g: &Grid, x: int, y: int, val: i32, u: Layer) -> bool {
    &&& raise_range(g, zero_layer(), u, val as int)
    &&& passable(g, x, y) ==> u[x][y] >= val
    &&& spread_closed(g, zero_layer(), u)
    &&& spread_justified(g, zero_layer(), u, x, y, val)
}

/// The influence of a spread of `val` from `(x, y)` over an empty layer: on each
/// position, the largest value that repeated halving from `(x, y)` along
/// walks of passable positions brings there (it is unique, see
/// `lemma_influence_unique`).
pub open spec fn influence(g: &Grid, x: int, y: int, val: i32) -> Layer {
    choose|u: Layer| is_influence(g, x, y, val, u)
}

#[verifier::spinoff_prover]
#[verifier::rlimit(60)]
proof fn lemma_influence_le(g: &Grid, x: int, y: int, val: i32, u1: Layer, u2: Layer, t: int)
    requires
        is_influence(g, x, y, val, u1),
        is_influence(g, x, y, val, u2),
        t >= 1,
    ensures
        forall|i: int, j: int| in_array(i, j) && #[trigger] u1[i][j] >= t ==> u1[i][j] <= u2[i][j],
    decreases val + 1 - t,
{
    if t > val {
        assert forall|i: int, j: int| in_array(i, j) && #[trigger] u1[i][j] >= t implies u1[i][j] <= u2[i][j] by {
            assert(zero_layer()[i][j] == 0);
        }
    } else {
        lemma_influence_le(g, x, y, val, u1, u2, t + 1);
        assert forall|i: int, j: int| in_array(i, j) && #[trigger] u1[i][j] >= t implies u1[i][j] <= u2[i][j] by {
            assert(zero_layer()[i][j] == 0);
            if u1[i][j] == t {
                assert(u1[i][j] > zero_layer()[i][j]);
                assert(passable(g, i, j));
                if i == x && j == y && u1[i][j] == val {
                } else {
                    let (c, d) = choose|c: int, d: int|
                        adjacent(i, j, c, d) && in_array(c, d) && u1[c][d] > zero_layer()[c][d] && u1[i][j] == u1[c][d] / 2;
                    assert(u1[c][d] >= t + 1);
                    assert(u1[c][d] <= u2[c][d]);
                    assert(zero_layer()[c][d] == 0);
                    assert(u2[c][d] > zero_layer()[c][d]);
                    assert(adjacent(c, d, i, j));
                    assert(u2[i][j] >= u2[c][d] / 2);
                }
            }
        }
    }
}

/// The influence of a spread is unique: two layers that both meet
/// `is_influence` for the same source and value are equal.
pub proof fn lemma_influence_unique(g: &Grid, x: int, y: int, val: i32, u1: Layer, u2: Layer)
    requires
        is_influence(g, x, y, val, u1),
        is_influence(g, x, y, val, u2),
    ensures
        u1 == u2,
{
    lemma_influence_le(g, x, y, val, u1, u2, 1);
    lemma_influence_le(g, x, y, val, u2, u1, 1);
    assert forall|a: int| 0 <= a < MAX_WIDTH implies #[trigger] u1[a] =~= u2[a] by {
        assert forall|b: int| 0 <= b < MAX_HEIGHT implies #[trigger] u1[a][b] == u2[a][b] by {
            assert(in_array(a, b));
            assert(zero_layer()[a][b] == 0);
            assert(u1[a][b] >= 0 && u2[a][b] >= 0);
            if u1[a][b] >= 1 {
                assert(u1[a][b] <= u2[a][b]);
            }
            if u2[a][b] >= 1 {
                assert(u2[a][b] <= u1[a][b]);
            }
        }
    }
    assert(u1 =~= u2);
}

/// A flag can be placed or removed at `(x, y)`: a passable position of the map.
pub open spec fn flag_site(g: &Grid, x: int, y: int) -> bool {
    passable(g, x, y)
}

/// The calls leave room for adding an attraction of strength `val`.
pub open spec fn call_room(fg: &FlagGrid, val: i32) -> bool {
    forall|i: int, j: int|
        in_array(i, j) ==> 0 <= #[trigger] fg.call[i][j] && fg.call[i][j] + spec_max(val as int, 0)
            <= i32::MAX
}

/// No call of a position in play is negative.
pub open spec fn calls_nonneg(g: &Grid, fg: &FlagGrid) -> bool {
    forall|i: int, j: int| in_grid(g, i, j) ==> 0 <= #[trigger] fg.call[i][j]
}

/// The calls of the positions in play are not negative and leave room for
/// adding an attraction of strength `val`.
pub open spec fn grid_call_room(g: &Grid, fg: &FlagGrid, val: i32) -> bool {
    forall|i: int, j: int|
        in_grid(g, i, j) ==> 0 <= #[trigger] fg.call[i][j] && fg.call[i][j] + spec_max(val as int, 0) <= i32::MAX
}

/// `f1` is `f0` after placing a flag of strength `val` at `(x, y)`: nothing
/// changes unless `(x, y)` is a passable position without a flag; then the
/// flag is set and the influence of `val` from `(x, y)` is added to the calls.
pub open spec fn flag_added(g: &Grid, f0: FlagGrid, f1: FlagGrid, x: int, y: int, val: i32) -> bool {
    let acts = flag_site(g, x, y) && f0.flag[x][y] != FLAG_ON;
    let inf = influence(g, x, y, val);
    &&& acts ==> is_influence(g, x, y, val, inf)
    &&& f1.width == f0.width
    &&& f1.height == f0.height
    &&& forall|i: int, j: int|
        in_array(i, j) ==> #[trigger] f1.flag[i][j] == if acts && i == x && j == y {
            FLAG_ON
        } else {
            f0.flag[i][j]
        }
    &&& forall|i: int, j: int|
        in_array(i, j) ==> #[trigger] f1.call[i][j] == if acts && inf[i][j] != 0 {
            clamp(f0.call[i][j] as int, 1, inf[i][j] as int)
        } else {
            f0.call[i][j] as int
        }
}

/// `f1` is `f0` after removing a flag of strength `val` at `(x, y)`: nothing
/// changes unless `(x, y)` is a passable position with a flag; then the
/// flag is cleared and the influence of `val` from `(x, y)` is subtracted
/// from the calls, which do not go below 0.
pub open spec fn flag_removed(g: &Grid, f0: FlagGrid, f1: FlagGrid, x: int, y: int, val: i32) -> bool {
    let acts = flag_site(g, x, y) && f0.flag[x][y] != FLAG_OFF;
    let inf = influence(g, x, y, val);
    &&& acts ==> is_influence(g, x, y, val, inf)
    &&& f1.width == f0.width
    &&& f1.height == f0.height
    &&& forall|i: int, j: int|
        in_array(i, j) ==> #[trigger] f1.flag[i][j] == if acts && i == x && j == y {
            FLAG_OFF
        } else {
            f0.flag[i][j]
        }
    &&& forall|i: int, j: int|
        in_array(i, j) ==> #[trigger] f1.call[i][j] == if acts && inf[i][j] != 0 {
            clamp(f0.call[i][j] as int, -1, inf[i][j] as int)
        } else {
            f0.call[i][j] as int
        }
}

proof fn lemma_spread_is_influence(g: &Grid, x: int, y: int, val: i32, v0: Layer, u1: Layer, v1: Layer, factor: i32)
    requires
        spread_post(g, zero_layer(), v0, u1, v1, x, y, val, factor),
    ensures
        influence(g, x, y, val) == u1,
        forall|i: int, j: int|
            in_array(i, j) ==> #[trigger] v1[i][j] == if u1[i][j] != 0 {
                clamp(v0[i][j] as int, factor as int, u1[i][j] as int)
            } else {
                v0[i][j] as int
            },
{
    assert(is_influence(g, x, y, val, u1));
    lemma_influence_unique(g, x, y, val, influence(g, x, y, val), u1);
    assert forall|i: int, j: int| in_array(i, j) implies #[trigger] v1[i][j] == if u1[i][j] != 0 {
        clamp(v0[i][j] as int, factor as int, u1[i][j] as int)
    } else {
        v0[i][j] as int
    } by {
        assert(zero_layer()[i][j] == 0);
    }
}

/// Places a flag of strength `val` at `(x, y)`, unless the position is not
/// passable or already has a flag, and adds the flag's attraction to the calls.
pub fn add_flag(g: &Grid, fg: &mut FlagGrid, x: i32, y: i32, val: i32)
    requires
        dims_ok(g.width as int, g.height as int),
        grid_call_room(g, old(fg), val),
    ensures
        flag_added(g, *old(fg), *final(fg), x as int, y as int, val),
{
    if x < 0 || x >= g.width || y < 0 || y >= g.height || !is_inhabitable(
        g.tiles[x as usize][y as usize].cl,
    ) || fg.flag[x as usize][y as usize] == FLAG_ON {
        proof {
            assert(forall|i: int, j: int| in_array(i, j) ==> #[trigger] fg.call[i][j] == fg.call[i][j] as int);
        }
        return;
    }
    let mut u: Layer = [[0i32; MAX_HEIGHT]; MAX_WIDTH];
    let ghost f0 = *fg;
    fg.flag[x as usize][y as usize] = FLAG_ON;
    proof {
        assert forall|i: int, j: int| in_grid(g, i, j) implies {
            &&& 0 <= #[trigger] zero_layer()[i][j]
            &&& 0 <= fg.call[i][j]
            &&& val - zero_layer()[i][j] >= i32::MIN
            &&& spec_abs(1) * (spec_max(zero_layer()[i][j] as int, val as int) - zero_layer()[i][j]) <= i32::MAX
            &&& fg.call[i][j] + spec_abs(1) * (spec_max(zero_layer()[i][j] as int, val as int) - zero_layer()[i][j])
                <= i32::MAX
        } by {
            assert(in_array(i, j));
            assert(zero_layer()[i][j] == 0);
            assert(fg.call[i][j] == f0.call[i][j]);
            assert(0 <= f0.call[i][j] && f0.call[i][j] + spec_max(val as int, 0) <= i32::MAX);
            assert(spec_abs(1) == 1);
            assert(spec_max(zero_layer()[i][j] as int, val as int) == spec_max(val as int, 0));
        }
        assert(spread_room(g, zero_layer(), fg.call, val, 1));
    }
    let ghost c0 = fg.call;
    spread(g, &mut u, &mut fg.call, x, y, val, 1);
    proof {
        lemma_spread_is_influence(g, x as int, y as int, val, c0, u, fg.call, 1);
    }
}

/// Removes the flag of strength `val` at `(x, y)`, unless the position is not
/// passable or has no flag, and takes the flag's attraction off the calls.
pub fn remove_flag(g: &Grid, fg: &mut FlagGrid, x: i32, y: i32, val: i32)
    requires
        dims_ok(g.width as int, g.height as int),
        calls_nonneg(g, old(fg)),
    ensures
        flag_removed(g, *old(fg), *final(fg), x as int, y as int, val),
{
    if x < 0 || x >= g.width || y < 0 || y >= g.height || !is_inhabitable(
        g.tiles[x as usize][y as usize].cl,
    ) || fg.flag[x as usize][y as usize] == FLAG_OFF {
        proof {
            assert(forall|i: int, j: int| in_array(i, j) ==> #[trigger] fg.call[i][j] == fg.call[i][j] as int);
        }
        return;
    }
    let mut u: Layer = [[0i32; MAX_HEIGHT]; MAX_WIDTH];
    let ghost f0 = *fg;
    fg.flag[x as usize][y as usize] = FLAG_OFF;
    proof {
        assert forall|i: int, j: int| in_grid(g, i, j) implies {
            &&& 0 <= #[trigger] zero_layer()[i][j]
            &&& 0 <= fg.call[i][j]
            &&& val - zero_layer()[i][j] >= i32::MIN
            &&& spec_abs(-1) * (spec_max(zero_layer()[i][j] as int, val as int) - zero_layer()[i][j]) <= i32::MAX
        } by {
            assert(in_array(i, j));
            assert(zero_layer()[i][j] == 0);
            assert(fg.call[i][j] == f0.call[i][j]);
            assert(0 <= f0.call[i][j]);
            assert(spec_abs(-1) == 1);
            assert(spec_max(zero_layer()[i][j] as int, val as int) == spec_max(val as int, 0));
        }
        assert(spread_room(g, zero_layer(), fg.call, val, -1i32));
    }
    let ghost c0 = fg.call;
    spread(g, &mut u, &mut fg.call, x, y, val, -1);
    proof {
        lemma_spread_is_influence(g, x as int, y as int, val, c0, u, fg.call, -1i32);
    }
}

/// Removing a flag right after placing it, with the same strength on the same
/// map, gives back the flag grid as it was (where there was no flag before).
pub proof fn lemma_add_then_remove_flag(
    g: &Grid,
    f0: FlagGrid,
    f1: FlagGrid,
    f2: FlagGrid,
    x: int,
    y: int,
    val: i32,
)
    requires
        dims_ok(g.width as int, g.height as int),
        calls_nonneg(g, &f0),
        in_array(x, y) ==> f0.flag[x][y] == FLAG_OFF,
        flag_added(g, f0, f1, x, y, val),
        flag_removed(g, f1, f2, x, y, val),
    ensures
        f2 == f0,
{
    let inf = influence(g, x, y, val);
    if flag_site(g, x, y) {
        assert(in_array(x, y));
        assert(f0.flag[x][y] == FLAG_OFF);
        assert(f1.flag[x][y] == FLAG_ON);
    }
    assert forall|a: int| 0 <= a < MAX_WIDTH implies #[trigger] f2.flag[a] =~= f0.flag[a] by {
        assert forall|b: int| 0 <= b < MAX_HEIGHT implies #[trigger] f2.flag[a][b] == f0.flag[a][b] by {
            assert(in_array(a, b));
        }
    }
    assert forall|a: int| 0 <= a < MAX_WIDTH implies #[trigger] f2.call[a] =~= f0.call[a] by {
        assert forall|b: int| 0 <= b < MAX_HEIGHT implies #[trigger] f2.call[a][b] == f0.call[a][b] by {
            assert(in_array(a, b));
            if flag_site(g, x, y) {
                assert(zero_layer()[a][b] == 0);
                assert(inf[a][b] >= 0);
                if inf[a][b] != 0 {
                    assert(passable(g, a, b));
                    assert(0 <= f0.call[a][b]);
                }
            }
        }
    }
    assert(f2.flag =~= f0.flag);
    assert(f2.call =~= f0.call);
}

// ---------------------------------------------------------------------------
// Calls as the total attraction of the flags
// ---------------------------------------------------------------------------

/// The attraction at `(a, b)` of the flags on in column `x`, rows below `m`.
pub open spec fn col_attraction(g: &Grid, flag: Layer, x: int, m: int, a: int, b: int) -> int
    decreases m,
{
    if m <= 0 {
        0
    } else {
        col_attraction(g, flag, x, m - 1, a, b) + if flag[x][m - 1] == FLAG_ON {
            influence(g, x, m - 1, FLAG_POWER)[a][b] as int
        } else {
            0
        }
    }
}

/// The attraction at `(a, b)` of the flags on in the columns below `n`.
pub open spec fn attraction_upto(g: &Grid, flag: Layer, n: int, a: int, b: int) -> int
    decreases n,
{
    if n <= 0 {
        0
    } else {
        attraction_upto(g, flag, n - 1, a, b) + col_attraction(g, flag, n - 1, MAX_HEIGHT as int, a, b)
    }
}

/// The total attraction at `(a, b)` of the flags on (see `influence`).
pub open spec fn attraction(g: &Grid, flag: Layer, a: int, b: int) -> int {
    attraction_upto(g, flag, MAX_WIDTH as int, a, b)
}

/// A flag layer agrees with the map: every flag on stands on a passable
/// position, and each call is the total attraction of the flags on.
pub open spec fn flags_consistent(g: &Grid, fg: &FlagGrid) -> bool {
    &&& forall|x: int, y: int|
        in_array(x, y) && #[trigger] fg.flag[x][y] == FLAG_ON ==> passable(g, x, y) && is_influence(
            g,
            x,
            y,
            FLAG_POWER,
            influence(g, x, y, FLAG_POWER),
        )
    &&& forall|a: int, b: int| in_array(a, b) ==> #[trigger] fg.call[a][b] == attraction(g, fg.flag, a, b)
}

proof fn lemma_col_attraction_update(g: &Grid, f1: Layer, f2: Layer, x0: int, m: int, a: int, b: int, x: int, y: int)
    requires
        0 <= m <= MAX_HEIGHT,
        forall|c: int| 0 <= c < MAX_HEIGHT && !(x0 == x && c == y) ==> #[trigger] f2[x0][c] == f1[x0][c],
    ensures
        col_attraction(g, f2, x0, m, a, b) == col_attraction(g, f1, x0, m, a, b) + if x0 == x && 0 <= y < m {
            (if f2[x][y] == FLAG_ON { influence(g, x, y, FLAG_POWER)[a][b] as int } else { 0 }) - (if f1[x][y]
                == FLAG_ON {
                influence(g, x, y, FLAG_POWER)[a][b] as int
            } else {
                0
            })
        } else {
            0
        },
    decreases m,
{
    if m > 0 {
        lemma_col_attraction_update(g, f1, f2, x0, m - 1, a, b, x, y);
        if !(x0 == x && m - 1 == y) {
            assert(f2[x0][m - 1] == f1[x0][m - 1]);
        }
    }
}

proof fn lemma_attraction_upto_update(g: &Grid, f1: Layer, f2: Layer, n: int, a: int, b: int, x: int, y: int)
    requires
        0 <= n <= MAX_WIDTH,
        in_array(x, y),
        forall|c: int, d: int| in_array(c, d) && !(c == x && d == y) ==> #[trigger] f2[c][d] == f1[c][d],
    ensures
        attraction_upto(g, f2, n, a, b) == attraction_upto(g, f1, n, a, b) + if 0 <= x < n {
            (if f2[x][y] == FLAG_ON { influence(g, x, y, FLAG_POWER)[a][b] as int } else { 0 }) - (if f1[x][y]
                == FLAG_ON {
                influence(g, x, y, FLAG_POWER)[a][b] as int
            } else {
                0
            })
        } else {
            0
        },
    decreases n,
{
    if n > 0 {
        lemma_attraction_upto_update(g, f1, f2, n - 1, a, b, x, y);
        assert forall|c: int| 0 <= c < MAX_HEIGHT && !(n - 1 == x && c == y) implies #[trigger] f2[n - 1][c] == f1[n - 1][c] by {
            assert(in_array(n - 1, c));
        }
        lemma_col_attraction_update(g, f1, f2, n - 1, MAX_HEIGHT as int, a, b, x, y);
    }
}

/// Turning the flag at `(x, y)` on or off changes the attraction everywhere by its influence.
proof fn lemma_attraction_update(g: &Grid, f1: Layer, f2: Layer, a: int, b: int, x: int, y: int)
    requires
        in_array(x, y),
        forall|c: int, d: int| in_array(c, d) && !(c == x && d == y) ==> #[trigger] f2[c][d] == f1[c][d],
    ensures
        attraction(g, f2, a, b) == attraction(g, f1, a, b) + (if f2[x][y] == FLAG_ON {
            influence(g, x, y, FLAG_POWER)[a][b] as int
        } else {
            0
        }) - (if f1[x][y] == FLAG_ON {
            influence(g, x, y, FLAG_POWER)[a][b] as int
        } else {
            0
        }),
{
    lemma_attraction_upto_update(g, f1, f2, MAX_WIDTH as int, a, b, x, y);
}

/// The attraction of flags that all have an influence lies between 0 and
/// `FLAG_POWER` per position.
proof fn lemma_attraction_bounds(g: &Grid, flag: Layer, a: int, b: int)
    requires
        in_array(a, b),
        forall|x: int, y: int|
            in_array(x, y) && #[trigger] flag[x][y] == FLAG_ON ==> is_influence(
                g,
                x,
                y,
                FLAG_POWER,
                influence(g, x, y, FLAG_POWER),
            ),
    ensures
        0 <= attraction(g, flag, a, b) <= FLAG_POWER * (MAX_WIDTH * MAX_HEIGHT),
{
    lemma_attraction_upto_bounds(g, flag, MAX_WIDTH as int, a, b);
}

proof fn lemma_attraction_upto_bounds(g: &Grid, flag: Layer, n: int, a: int, b: int)
    requires
        in_array(a, b),
        0 <= n <= MAX_WIDTH,
        forall|x: int, y: int|
            in_array(x, y) && #[trigger] flag[x][y] == FLAG_ON ==> is_influence(
                g,
                x,
                y,
                FLAG_POWER,
                influence(g, x, y, FLAG_POWER),
            ),
    ensures
        0 <= attraction_upto(g, flag, n, a, b) <= FLAG_POWER * (n * MAX_HEIGHT),
    decreases n,
{
    if n > 0 {
        lemma_attraction_upto_bounds(g, flag, n - 1, a, b);
        lemma_col_attraction_bounds(g, flag, n - 1, MAX_HEIGHT as int, a, b);
    }
}

proof fn lemma_col_attraction_bounds(g: &Grid, flag: Layer, x: int, m: int, a: int, b: int)
    requires
        in_array(a, b),
        0 <= x < MAX_WIDTH,
        0 <= m <= MAX_HEIGHT,
        forall|x1: int, y1: int|
            in_array(x1, y1) && #[trigger] flag[x1][y1] == FLAG_ON ==> is_influence(
                g,
                x1,
                y1,
                FLAG_POWER,
                influence(g, x1, y1, FLAG_POWER),
            ),
    ensures
        0 <= col_attraction(g, flag, x, m, a, b) <= FLAG_POWER * m,
    decreases m,
{
    if m > 0 {
        lemma_col_attraction_bounds(g, flag, x, m - 1, a, b);
        if flag[x][m - 1] == FLAG_ON {
            assert(in_array(x, m - 1));
            let inf = influence(g, x, m - 1, FLAG_POWER);
            assert(is_influence(g, x, m - 1, FLAG_POWER, inf));
            assert(zero_layer()[a][b] == 0);
            assert(0 <= inf[a][b] <= FLAG_POWER);
        }
    }
}

/// Placing a flag keeps a flag layer in agreement with the map.
pub proof fn lemma_add_flag_consistent(g: &Grid, f0: FlagGrid, f1: FlagGrid, x: int, y: int)
    requires
        dims_ok(g.width as int, g.height as int),
        flags_consistent(g, &f0),
        flag_added(g, f0, f1, x, y, FLAG_POWER),
    ensures
        flags_consistent(g, &f1),
{
    let acts = flag_site(g, x, y) && f0.flag[x][y] != FLAG_ON;
    if acts {
        assert(in_array(x, y));
        let inf = influence(g, x, y, FLAG_POWER);
        assert forall|a: int, b: int| in_array(a, b) implies #[trigger] f1.call[a][b] == attraction(g, f1.flag, a, b) by {
            assert forall|c: int, d: int| in_array(c, d) && !(c == x && d == y) implies #[trigger] f1.flag[c][d]
                == f0.flag[c][d] by {}
            lemma_attraction_update(g, f0.flag, f1.flag, a, b, x, y);
            assert(zero_layer()[a][b] == 0);
            assert(0 <= inf[a][b]);
            assert(f0.call[a][b] == attraction(g, f0.flag, a, b));
            lemma_attraction_bounds(g, f0.flag, a, b);
        }
        assert forall|c: int, d: int| in_array(c, d) && #[trigger] f1.flag[c][d] == FLAG_ON implies passable(g, c, d)
            && is_influence(g, c, d, FLAG_POWER, influence(g, c, d, FLAG_POWER)) by {
            if !(c == x && d == y) {
                assert(f0.flag[c][d] == FLAG_ON);
            }
        }
    } else {
        assert forall|a: int| 0 <= a < MAX_WIDTH implies #[trigger] f1.flag[a] =~= f0.flag[a] by {
            assert forall|b: int| 0 <= b < MAX_HEIGHT implies #[trigger] f1.flag[a][b] == f0.flag[a][b] by {
                assert(in_array(a, b));
            }
        }
        assert(f1.flag =~= f0.flag);
        assert forall|a: int, b: int| in_array(a, b) implies #[trigger] f1.call[a][b] == attraction(g, f1.flag, a, b) by {
            assert(f1.call[a][b] == f0.call[a][b]);
        }
        assert forall|c: int, d: int| in_array(c, d) && #[trigger] f1.flag[c][d] == FLAG_ON implies passable(g, c, d)
            && is_influence(g, c, d, FLAG_POWER, influence(g, c, d, FLAG_POWER)) by {
            assert(f0.flag[c][d] == FLAG_ON);
        }
    }
}

/// Removing a flag keeps a flag layer in agreement with the map: the calls
/// never need the floor at 0.
pub proof fn lemma_remove_flag_consistent(g: &Grid, f0: FlagGrid, f1: FlagGrid, x: int, y: int)
    requires
        dims_ok(g.width as int, g.height as int),
        flag_grid_wf(&f0),
        flags_consistent(g, &f0),
        flag_removed(g, f0, f1, x, y, FLAG_POWER),
    ensures
        flags_consistent(g, &f1),
{
    let acts = flag_site(g, x, y) && f0.flag[x][y] != FLAG_OFF;
    if acts {
        assert(in_array(x, y));
        assert(f0.flag[x][y] == FLAG_ON);
        let inf = influence(g, x, y, FLAG_POWER);
        assert forall|c: int, d: int| in_array(c, d) && #[trigger] f1.flag[c][d] == FLAG_ON implies passable(g, c, d)
            && is_influence(g, c, d, FLAG_POWER, influence(g, c, d, FLAG_POWER)) by {
            assert(f0.flag[c][d] == FLAG_ON);
        }
        assert forall|a: int, b: int| in_array(a, b) implies #[trigger] f1.call[a][b] == attraction(g, f1.flag, a, b) by {
            assert forall|c: int, d: int| in_array(c, d) && !(c == x && d == y) implies #[trigger] f1.flag[c][d]
                == f0.flag[c][d] by {}
            lemma_attraction_update(g, f0.flag, f1.flag, a, b, x, y);
            lemma_attraction_bounds(g, f1.flag, a, b);
            assert(f0.call[a][b] == attraction(g, f0.flag, a, b));
        }
    } else {
        assert forall|a: int| 0 <= a < MAX_WIDTH implies #[trigger] f1.flag[a] =~= f0.flag[a] by {
            assert forall|b: int| 0 <= b < MAX_HEIGHT implies #[trigger] f1.flag[a][b] == f0.flag[a][b] by {
                assert(in_array(a, b));
            }
        }
        assert(f1.flag =~= f0.flag);
        assert forall|a: int, b: int| in_array(a, b) implies #[trigger] f1.call[a][b] == attraction(g, f1.flag, a, b) by {
            assert(f1.call[a][b] == f0.call[a][b]);
        }
        assert forall|c: int, d: int| in_array(c, d) && #[trigger] f1.flag[c][d] == FLAG_ON implies passable(g, c, d)
            && is_influence(g, c, d, FLAG_POWER, influence(g, c, d, FLAG_POWER)) by {
            assert(f0.flag[c][d] == FLAG_ON);
        }
    }
}

/// The calls of a flag layer in agreement with the map never exceed
/// `FLAG_POWER` times the number of positions.
pub proof fn lemma_consistent_calls_bounded(g: &Grid, fg: &FlagGrid)
    requires
        flags_consistent(g, fg),
    ensures
        calls_at_most(fg, FLAG_POWER * (MAX_WIDTH * MAX_HEIGHT)),
{
    assert forall|a: int, b: int| in_array(a, b) implies 0 <= #[trigger] fg.call[a][b] <= FLAG_POWER * (MAX_WIDTH
        * MAX_HEIGHT) by {
        assert forall|x: int, y: int| in_array(x, y) && #[trigger] fg.flag[x][y] == FLAG_ON implies is_influence(
            g,
            x,
            y,
            FLAG_POWER,
            influence(g, x, y, FLAG_POWER),
        ) by {}
        lemma_attraction_bounds(g, fg.flag, a, b);
    }
}

/// Two maps have the same passable positions.
pub open spec fn same_cells(g1: &Grid, g2: &Grid) -> bool {
    forall|a: int, b: int| #[trigger] passable(g1, a, b) == passable(g2, a, b)
}

proof fn lemma_is_influence_same_cells(g1: &Grid, g2: &Grid, x: int, y: int, val: i32, u: Layer)
    requires
        same_cells(g1, g2),
        is_influence(g1, x, y, val, u),
    ensures
        is_influence(g2, x, y, val, u),
{
    assert forall|i: int, j: int| in_array(i, j) implies zero_layer()[i][j] <= #[trigger] u[i][j] && (u[i][j]
        > zero_layer()[i][j] ==> u[i][j] <= val && passable(g2, i, j)) by {
        assert(passable(g1, i, j) == passable(g2, i, j));
    }
    assert(passable(g1, x, y) == passable(g2, x, y));
    assert forall|a: int, b: int, c: int, d: int|
        in_array(a, b) && u[a][b] > zero_layer()[a][b] && #[trigger] adjacent(a, b, c, d) && passable(g2, c, d)
            implies #[trigger] u[c][d] >= u[a][b] / 2 by {
        assert(passable(g1, c, d) == passable(g2, c, d));
    }
}

/// The influence of a flag depends on the passable positions of the map only.
proof fn lemma_influence_same_cells(g1: &Grid, g2: &Grid, x: int, y: int)
    requires
        same_cells(g1, g2),
        is_influence(g1, x, y, FLAG_POWER, influence(g1, x, y, FLAG_POWER)),
    ensures
        influence(g2, x, y, FLAG_POWER) == influence(g1, x, y, FLAG_POWER),
        is_influence(g2, x, y, FLAG_POWER, influence(g2, x, y, FLAG_POWER)),
{
    let u1 = influence(g1, x, y, FLAG_POWER);
    lemma_is_influence_same_cells(g1, g2, x, y, FLAG_POWER, u1);
    let u2 = influence(g2, x, y, FLAG_POWER);
    assert(is_influence(g2, x, y, FLAG_POWER, u2));
    lemma_influence_unique(g2, x, y, FLAG_POWER, u1, u2);
}

proof fn lemma_col_attraction_same_cells(g1: &Grid, g2: &Grid, flag: Layer, x: int, m: int, a: int, b: int)
    requires
        0 <= x < MAX_WIDTH,
        0 <= m <= MAX_HEIGHT,
        forall|x1: int, y1: int|
            in_array(x1, y1) && #[trigger] flag[x1][y1] == FLAG_ON ==> influence(g2, x1, y1, FLAG_POWER) == influence(
                g1,
                x1,
                y1,
                FLAG_POWER,
            ),
    ensures
        col_attraction(g1, flag, x, m, a, b) == col_attraction(g2, flag, x, m, a, b),
    decreases m,
{
    if m > 0 {
        lemma_col_attraction_same_cells(g1, g2, flag, x, m - 1, a, b);
        if flag[x][m - 1] == FLAG_ON {
            assert(in_array(x, m - 1));
        }
    }
}

proof fn lemma_attraction_upto_same_cells(g1: &Grid, g2: &Grid, flag: Layer, n: int, a: int, b: int)
    requires
        0 <= n <= MAX_WIDTH,
        forall|x1: int, y1: int|
            in_array(x1, y1) && #[trigger] flag[x1][y1] == FLAG_ON ==> influence(g2, x1, y1, FLAG_POWER) == influence(
                g1,
                x1,
                y1,
                FLAG_POWER,
            ),
    ensures
        attraction_upto(g1, flag, n, a, b) == attraction_upto(g2, flag, n, a, b),
    decreases n,
{
    if n > 0 {
        lemma_attraction_upto_same_cells(g1, g2, flag, n - 1, a, b);
        lemma_col_attraction_same_cells(g1, g2, flag, n - 1, MAX_HEIGHT as int, a, b);
    }
}

/// A flag layer that agrees with a map agrees with every map of the same
/// passable positions (building and degrading cities keep them).
pub proof fn lemma_consistent_same_cells(g1: &Grid, g2: &Grid, fg: &FlagGrid)
    requires
        flags_consistent(g1, fg),
        same_cells(g1, g2),
    ensures
        flags_consistent(g2, fg),
{
    assert forall|x1: int, y1: int| in_array(x1, y1) && #[trigger] fg.flag[x1][y1] == FLAG_ON implies influence(
        g2,
        x1,
        y1,
        FLAG_POWER,
    ) == influence(g1, x1, y1, FLAG_POWER) && passable(g2, x1, y1) && is_influence(
        g2,
        x1,
        y1,
        FLAG_POWER,
        influence(g2, x1, y1, FLAG_POWER),
    ) by {
        lemma_influence_same_cells(g1, g2, x1, y1);
        assert(passable(g1, x1, y1) == passable(g2, x1, y1));
    }
    assert forall|a: int, b: int| in_array(a, b) implies #[trigger] fg.call[a][b] == attraction(g2, fg.flag, a, b) by {
        lemma_attraction_upto_same_cells(g1, g2, fg.flag, MAX_WIDTH as int, a, b);
    }
}

proof fn lemma_col_attraction_none(g: &Grid, flag: Layer, x: int, m: int, a: int, b: int)
    requires
        0 <= x < MAX_WIDTH,
        0 <= m <= MAX_HEIGHT,
        forall|x1: int, y1: int| in_array(x1, y1) ==> #[trigger] flag[x1][y1] != FLAG_ON,
    ensures
        col_attraction(g, flag, x, m, a, b) == 0,
    decreases m,
{
    if m > 0 {
        lemma_col_attraction_none(g, flag, x, m - 1, a, b);
        assert(in_array(x, m - 1));
    }
}

proof fn lemma_attraction_upto_none(g: &Grid, flag: Layer, n: int, a: int, b: int)
    requires
        0 <= n <= MAX_WIDTH,
        forall|x1: int, y1: int| in_array(x1, y1) ==> #[trigger] flag[x1][y1] != FLAG_ON,
    ensures
        attraction_upto(g, flag, n, a, b) == 0,
    decreases n,
{
    if n > 0 {
        lemma_attraction_upto_none(g, flag, n - 1, a, b);
        lemma_col_attraction_none(g, flag, n - 1, MAX_HEIGHT as int, a, b);
    }
}

/// A flag layer without flags and without calls agrees with every map.
pub proof fn lemma_no_flags_consistent(g: &Grid, fg: &FlagGrid)
    requires
        forall|a: int, b: int| in_array(a, b) ==> #[trigger] fg.flag[a][b] != FLAG_ON && fg.call[a][b] == 0,
    ensures
        flags_consistent(g, fg),
{
    assert forall|a: int, b: int| in_array(a, b) implies #[trigger] fg.call[a][b] == attraction(g, fg.flag, a, b) by {
        assert forall|x1: int, y1: int| in_array(x1, y1) implies #[trigger] fg.flag[x1][y1] != FLAG_ON by {}
        lemma_attraction_upto_none(g, fg.flag, MAX_WIDTH as int, a, b);
        assert(fg.flag[a][b] != FLAG_ON);
    }
}

// ---------------------------------------------------------------------------
// Flags placed in turn
// ---------------------------------------------------------------------------

/// Calls below which a whole scan of flag changes fits in `i32`.
pub const CALL_CAP: i32 = 2_000_000_000;

/// Largest total that the calls reach after one scan of flag changes that starts below `CALL_CAP`.
pub open spec fn scan_cap() -> int {
    CALL_CAP + FLAG_POWER * (MAX_WIDTH * MAX_HEIGHT)
}

/// Every call lies between 0 and `cap`.
pub open spec fn calls_at_most(fg: &FlagGrid, cap: int) -> bool {
    forall|i: int, j: int| in_array(i, j) ==> 0 <= #[trigger] fg.call[i][j] <= cap
}

/// Places a flag of strength `FLAG_POWER` at `(x, y)` as `add_flag` does;
/// flags stay on or off, and no call grows by more than `FLAG_POWER`.
pub(crate) fn add_power_flag(g: &Grid, fg: &mut FlagGrid, x: i32, y: i32, Ghost(cap): Ghost<int>)
    requires
        dims_ok(g.width as int, g.height as int),
        flag_grid_wf(old(fg)),
        calls_at_most(old(fg), cap),
        cap + FLAG_POWER <= i32::MAX,
    ensures
        flag_added(g, *old(fg), *final(fg), x as int, y as int, FLAG_POWER),
        flag_grid_wf(final(fg)),
        final(fg).width == old(fg).width,
        final(fg).height == old(fg).height,
        calls_at_most(final(fg), cap + FLAG_POWER),
        flags_consistent(g, old(fg)) ==> flags_consistent(g, final(fg)),
        forall|i: int, j: int|
            in_array(i, j) ==> #[trigger] final(fg).flag[i][j] == if passable(g, i, j) && i == x && j == y {
                FLAG_ON
            } else {
                old(fg).flag[i][j]
            },
{
    proof {
        assert forall|i: int, j: int| in_array(i, j) implies 0 <= #[trigger] fg.call[i][j] && fg.call[i][j] + spec_max(FLAG_POWER as int, 0) <= i32::MAX by {}
    }
    let ghost f0 = *fg;
    add_flag(g, fg, x, y, FLAG_POWER);
    proof {
        let inf = influence(g, x as int, y as int, FLAG_POWER);
        assert forall|i: int, j: int| in_array(i, j) implies 0 <= #[trigger] fg.call[i][j] <= cap + FLAG_POWER by {
            assert(0 <= f0.call[i][j] <= cap);
            if flag_site(g, x as int, y as int) && f0.flag[x as int][y as int] != FLAG_ON {
                assert(zero_layer()[i][j] == 0);
                assert(0 <= inf[i][j] <= FLAG_POWER);
            }
        }
        assert forall|i: int, j: int| in_array(i, j) implies (#[trigger] fg.flag[i][j] == FLAG_ON || fg.flag[i][j] == FLAG_OFF) by {}
        assert forall|i: int, j: int|
            in_array(i, j) implies #[trigger] fg.flag[i][j] == if passable(g, i, j) && i == x && j == y {
                FLAG_ON
            } else {
                f0.flag[i][j]
            } by {
            if passable(g, i, j) && i == x && j == y && f0.flag[i][j] == FLAG_ON {
            }
        }
        if flags_consistent(g, &f0) {
            lemma_add_flag_consistent(g, f0, *fg, x as int, y as int);
        }
    }
}

/// Removes the flag of strength `FLAG_POWER` at `(x, y)` as `remove_flag`
/// does; flags stay on or off, and no call grows.
pub(crate) fn remove_power_flag(g: &Grid, fg: &mut FlagGrid, x: i32, y: i32, Ghost(cap): Ghost<int>)
    requires
        dims_ok(g.width as int, g.height as int),
        flag_grid_wf(old(fg)),
        calls_at_most(old(fg), cap),
        cap + FLAG_POWER <= i32::MAX,
    ensures
        flag_removed(g, *old(fg), *final(fg), x as int, y as int, FLAG_POWER),
        flag_grid_wf(final(fg)),
        final(fg).width == old(fg).width,
        final(fg).height == old(fg).height,
        calls_at_most(final(fg), cap),
        flags_consistent(g, old(fg)) ==> flags_consistent(g, final(fg)),
        forall|i: int, j: int|
            in_array(i, j) ==> #[trigger] final(fg).flag[i][j] == if passable(g, i, j) && i == x && j == y {
                FLAG_OFF
            } else {
                old(fg).flag[i][j]
            },
{
    proof {
        assert forall|i: int, j: int| in_array(i, j) implies 0 <= #[trigger] fg.call[i][j] && fg.call[i][j] + spec_max(FLAG_POWER as int, 0) <= i32::MAX by {}
    }
    let ghost f0 = *fg;
    remove_flag(g, fg, x, y, FLAG_POWER);
    proof {
        let inf = influence(g, x as int, y as int, FLAG_POWER);
        assert forall|i: int, j: int| in_array(i, j) implies 0 <= #[trigger] fg.call[i][j] <= cap by {
            assert(0 <= f0.call[i][j] <= cap);
            if flag_site(g, x as int, y as int) && f0.flag[x as int][y as int] != FLAG_OFF {
                assert(zero_layer()[i][j] == 0);
                assert(0 <= inf[i][j] <= FLAG_POWER);
            }
        }
        assert forall|i: int, j: int| in_array(i, j) implies (#[trigger] fg.flag[i][j] == FLAG_ON || fg.flag[i][j] == FLAG_OFF) by {}
        assert forall|i: int, j: int|
            in_array(i, j) implies #[trigger] fg.flag[i][j] == if passable(g, i, j) && i == x && j == y {
                FLAG_OFF
            } else {
                f0.flag[i][j]
            } by {
            if passable(g, i, j) && i == x && j == y && f0.flag[i][j] == FLAG_OFF {
            }
        }
        if flags_consistent(g, &f0) {
            lemma_remove_flag_consistent(g, f0, *fg, x as int, y as int);
        }
    }
}

/// Removes the flags (of strength `FLAG_POWER`) of the passable positions
/// that `picks` marks, scanning column by column; the other flags stay, and
/// no call grows.
pub fn remove_picked_flags(g: &Grid, fg: &mut FlagGrid, picks: &[[bool; MAX_HEIGHT]; MAX_WIDTH])
    requires
        dims_ok(g.width as int, g.height as int),
        flag_grid_wf(old(fg)),
        calls_at_most(old(fg), CALL_CAP as int),
    ensures
        flag_grid_wf(final(fg)),
        final(fg).width == old(fg).width,
        final(fg).height == old(fg).height,
        calls_at_most(final(fg), CALL_CAP as int),
        final(fg).width == old(fg).width,
        final(fg).height == old(fg).height,
        forall|a: int, b: int|
            in_array(a, b) ==> #[trigger] final(fg).flag[a][b] == if passable(g, a, b) && picks[a][b] {
                FLAG_OFF
            } else {
                old(fg).flag[a][b]
            },
        forall|a: int, b: int| in_array(a, b) ==> #[trigger] final(fg).call[a][b] <= old(fg).call[a][b],
        flags_consistent(g, old(fg)) ==> flags_consistent(g, final(fg)),
{
    let ghost f0 = *fg;
    let w = g.width;
    let h = g.height;
    let mut i: i32 = 0;
    while i < w
        invariant
            dims_ok(g.width as int, g.height as int),
            w == g.width,
            h == g.height,
            0 <= i <= w,
            flag_grid_wf(fg),
            calls_at_most(fg, CALL_CAP as int),
            fg.width == f0.width,
            fg.height == f0.height,
            forall|a: int, b: int|
                in_array(a, b) ==> #[trigger] fg.flag[a][b] == if a < i && b < h && passable(g, a, b) && picks[a][b] {
                    FLAG_OFF
                } else {
                    f0.flag[a][b]
                },
            forall|a: int, b: int| in_array(a, b) ==> #[trigger] fg.call[a][b] <= f0.call[a][b],
            flags_consistent(g, &f0) ==> flags_consistent(g, fg),
        decreases w - i,
    {
        let mut j: i32 = 0;
        while j < h
            invariant
                dims_ok(g.width as int, g.height as int),
                w == g.width,
                h == g.height,
                0 <= i < w,
                0 <= j <= h,
                flag_grid_wf(fg),
                calls_at_most(fg, CALL_CAP as int),
                fg.width == f0.width,
                fg.height == f0.height,
                forall|a: int, b: int|
                    in_array(a, b) ==> #[trigger] fg.flag[a][b] == if ((a < i && b < h) || (a == i && b < j)) && passable(
                        g,
                        a,
                        b,
                    ) && picks[a][b] {
                        FLAG_OFF
                    } else {
                        f0.flag[a][b]
                    },
                forall|a: int, b: int| in_array(a, b) ==> #[trigger] fg.call[a][b] <= f0.call[a][b],
                flags_consistent(g, &f0) ==> flags_consistent(g, fg),
            decreases h - j,
        {
            proof {
                assert(in_array(i as int, j as int));
            }
            if fg.flag[i as usize][j as usize] == FLAG_ON && picks[i as usize][j as usize] {
                let ghost fb = *fg;
                remove_power_flag(g, fg, i, j, Ghost(CALL_CAP as int));
                proof {
                    let inf = influence(g, i as int, j as int, FLAG_POWER);
                    assert forall|a: int, b: int| in_array(a, b) implies #[trigger] fg.call[a][b] <= f0.call[a][b] by {
                        assert(fb.call[a][b] <= f0.call[a][b]);
                        if flag_site(g, i as int, j as int) && fb.flag[i as int][j as int] != FLAG_OFF {
                            assert(zero_layer()[a][b] == 0);
                            assert(0 <= inf[a][b]);
                        }
                    }
                }
            }
            j = j + 1;
        }
        i = i + 1;
    }
}

} // verus!
