//! Flood fills over the map: region filling (`even`, connectivity),
//! decaying influence (`spread`) and nearest start location (`floodfill_closest`).
use vstd::prelude::*;
use crate::common::{DIRECTIONS, MAX_HEIGHT, MAX_WIDTH, NEUTRAL, dir, dir_di, dir_dj, max_i32, spec_max};
use crate::grid::{Grid, Layer, adjacent, dims_ok, in_array, in_grid, is_inhabitable, passable, spec_is_inhabitable};

verus! {

// ---------------------------------------------------------------------------
// Sums over a layer, used as termination measures
// ---------------------------------------------------------------------------

pub open spec fn row_sum(r: [i32; MAX_HEIGHT], f: spec_fn(i32) -> nat, n: int) -> nat
    decreases n,
{
    if n <= 0 {
        0
    } else {
        row_sum(r, f, n - 1) + f(r[n - 1])
    }
}

pub open spec fn layer_sum(a: Layer, f: spec_fn(i32) -> nat, n: int) -> nat
    decreases n,
{
    if n <= 0 {
        0
    } else {
        layer_sum(a, f, n - 1) + row_sum(a[n - 1], f, MAX_HEIGHT as int)
    }
}

/// Sum of `f` over the whole layer.
pub open spec fn total(a: Layer, f: spec_fn(i32) -> nat) -> nat {
    layer_sum(a, f, MAX_WIDTH as int)
}

proof fn lemma_row_sum_mono(r1: [i32; MAX_HEIGHT], r2: [i32; MAX_HEIGHT], f: spec_fn(i32) -> nat, n: int)
    requires
        0 <= n <= MAX_HEIGHT,
        forall|j: int| 0 <= j < MAX_HEIGHT ==> f(#[trigger] r2[j]) <= f(r1[j]),
    ensures
        row_sum(r2, f, n) <= row_sum(r1, f, n),
    decreases n,
{
    if n > 0 {
        lemma_row_sum_mono(r1, r2, f, n - 1);
        assert(f(r2[n - 1]) <= f(r1[n - 1]));
    }
}

proof fn lemma_row_sum_strict(
    r1: [i32; MAX_HEIGHT],
    r2: [i32; MAX_HEIGHT],
    f: spec_fn(i32) -> nat,
    n: int,
    jj: int,
)
    requires
        0 <= jj < n <= MAX_HEIGHT,
        forall|j: int| 0 <= j < MAX_HEIGHT ==> f(#[trigger] r2[j]) <= f(r1[j]),
        f(r2[jj]) < f(r1[jj]),
    ensures
        row_sum(r2, f, n) < row_sum(r1, f, n),
    decreases n,
{
    if n - 1 == jj {
        lemma_row_sum_mono(r1, r2, f, n - 1);
    } else {
        lemma_row_sum_strict(r1, r2, f, n - 1, jj);
        assert(f(r2[n - 1]) <= f(r1[n - 1]));
    }
}

proof fn lemma_layer_sum_mono(a1: Layer, a2: Layer, f: spec_fn(i32) -> nat, n: int)
    requires
        0 <= n <= MAX_WIDTH,
        forall|i: int, j: int| in_array(i, j) ==> f(#[trigger] a2[i][j]) <= f(a1[i][j]),
    ensures
        layer_sum(a2, f, n) <= layer_sum(a1, f, n),
    decreases n,
{
    if n > 0 {
        lemma_layer_sum_mono(a1, a2, f, n - 1);
        assert forall|j: int| 0 <= j < MAX_HEIGHT implies f(#[trigger] a2[n - 1][j]) <= f(
            a1[n - 1][j],
        ) by {
            assert(in_array(n - 1, j));
        }
        lemma_row_sum_mono(a1[n - 1], a2[n - 1], f, MAX_HEIGHT as int);
    }
}

proof fn lemma_layer_sum_strict(a1: Layer, a2: Layer, f: spec_fn(i32) -> nat, n: int, ii: int, jj: int)
    requires
        0 <= ii < n <= MAX_WIDTH,
        0 <= jj < MAX_HEIGHT,
        forall|i: int, j: int| in_array(i, j) ==> f(#[trigger] a2[i][j]) <= f(a1[i][j]),
        f(a2[ii][jj]) < f(a1[ii][jj]),
    ensures
        layer_sum(a2, f, n) < layer_sum(a1, f, n),
    decreases n,
{
    if n - 1 == ii {
        lemma_layer_sum_mono(a1, a2, f, n - 1);
        assert forall|j: int| 0 <= j < MAX_HEIGHT implies f(#[trigger] a2[ii][j]) <= f(a1[ii][j]) by {
            assert(in_array(ii, j));
        }
        lemma_row_sum_strict(a1[ii], a2[ii], f, MAX_HEIGHT as int, jj);
    } else {
        lemma_layer_sum_strict(a1, a2, f, n - 1, ii, jj);
        assert forall|j: int| 0 <= j < MAX_HEIGHT implies f(#[trigger] a2[n - 1][j]) <= f(a1[n - 1][j]) by {
            assert(in_array(n - 1, j));
        }
        lemma_row_sum_mono(a1[n - 1], a2[n - 1], f, MAX_HEIGHT as int);
    }
}

// ---------------------------------------------------------------------------
// Region fill
// ---------------------------------------------------------------------------

/// The fill may enter position `(i, j)`: it is in play and, when `inh`, inhabitable.
pub open spec fn fill_ok(g: &Grid, inh: bool, i: int, j: int) -> bool {
    in_grid(g, i, j) && (inh ==> spec_is_inhabitable(g.tiles[i][j].cl))
}

/// The fill may enter `(i, j)` and has not marked it with `val` yet.
pub open spec fn open_cell(g: &Grid, v: Layer, val: i32, inh: bool, i: int, j: int) -> bool {
    fill_ok(g, inh, i, j) && v[i][j] != val
}

/// `p` is a walk between neighbouring open positions.
pub open spec fn is_path(g: &Grid, v: Layer, val: i32, inh: bool, p: Seq<(int, int)>) -> bool {
    &&& p.len() >= 1
    &&& forall|k: int| 0 <= k < p.len() ==> open_cell(g, v, val, inh, (#[trigger] p[k]).0, p[k].1)
    &&& forall|k: int|
        0 <= k < p.len() - 1 ==> adjacent(
            (#[trigger] p[k]).0,
            p[k].1,
            p[k + 1].0,
            p[k + 1].1,
        )
}

/// A walk between open positions leads from `(x, y)` to `(i, j)`.
pub open spec fn reaches(g: &Grid, v: Layer, val: i32, inh: bool, x: int, y: int, i: int, j: int) -> bool {
    exists|p: Seq<(int, int)>| #[trigger]
        is_path(g, v, val, inh, p) && p[0] == (x, y) && p[p.len() - 1] == (i, j)
}

/// `v1` is `v0` with every position reachable from `(x, y)` set to `val`.
pub open spec fn filled(g: &Grid, v0: Layer, v1: Layer, val: i32, inh: bool, x: int, y: int) -> bool {
    forall|i: int, j: int|
        in_array(i, j) ==> #[trigger] v1[i][j] == if reaches(g, v0, val, inh, x, y, i, j) {
            val
        } else {
            v0[i][j]
        }
}

/// Every position that became `val` has all its enterable neighbours at `val`.
pub open spec fn fill_closed(g: &Grid, v0: Layer, v1: Layer, val: i32, inh: bool) -> bool {
    forall|a: int, b: int, c: int, d: int|
        in_array(a, b) && v0[a][b] != val && v1[a][b] == val && #[trigger] adjacent(a, b, c, d)
            && fill_ok(g, inh, c, d) ==> #[trigger] v1[c][d] == val
}

pub open spec fn ne_val(val: i32) -> spec_fn(i32) -> nat {
    |x: i32| if x != val { 1nat } else { 0nat }
}

proof fn lemma_extend_path(
    g: &Grid,
    v0: Layer,
    a: Layer,
    val: i32,
    inh: bool,
    x: int,
    y: int,
    p: Seq<(int, int)>,
)
    requires
        dims_ok(g.width as int, g.height as int),
        is_path(g, a, val, inh, p),
        open_cell(g, v0, val, inh, x, y),
        adjacent(x, y, p[0].0, p[0].1),
        forall|i: int, j: int| in_array(i, j) ==> #[trigger] a[i][j] == v0[i][j] || a[i][j] == val,
    ensures
        is_path(g, v0, val, inh, seq![(x, y)] + p),
        (seq![(x, y)] + p)[0] == (x, y),
        (seq![(x, y)] + p).last() == p.last(),
{
    let q = seq![(x, y)] + p;
    assert forall|k: int| 0 <= k < q.len() implies open_cell(g, v0, val, inh, (#[trigger] q[k]).0, q[k].1) by {
        if k > 0 {
            assert(q[k] == p[k - 1]);
            assert(open_cell(g, a, val, inh, p[k - 1].0, p[k - 1].1));
            assert(in_array(p[k - 1].0, p[k - 1].1));
        }
    }
    assert forall|k: int| 0 <= k < q.len() - 1 implies adjacent((#[trigger] q[k]).0, q[k].1, q[k + 1].0, q[k + 1].1) by {
        if k > 0 {
            assert(q[k] == p[k - 1]);
            assert(q[k + 1] == p[k]);
        }
    }
}

proof fn lemma_reach_filled(
    g: &Grid,
    v0: Layer,
    v1: Layer,
    val: i32,
    inh: bool,
    x: int,
    y: int,
    p: Seq<(int, int)>,
)
    requires
        dims_ok(g.width as int, g.height as int),
        is_path(g, v0, val, inh, p),
        p[0] == (x, y),
        open_cell(g, v0, val, inh, x, y) ==> v1[x][y] == val,
        fill_closed(g, v0, v1, val, inh),
    ensures
        v1[p.last().0][p.last().1] == val,
    decreases p.len(),
{
    if p.len() == 1 {
        assert(open_cell(g, v0, val, inh, p[0].0, p[0].1));
    } else {
        let q = p.drop_last();
        assert forall|k: int| 0 <= k < q.len() implies open_cell(g, v0, val, inh, (#[trigger] q[k]).0, q[k].1) by {
            assert(q[k] == p[k]);
        }
        assert forall|k: int| 0 <= k < q.len() - 1 implies adjacent((#[trigger] q[k]).0, q[k].1, q[k + 1].0, q[k + 1].1) by {
            assert(q[k] == p[k]);
            assert(q[k + 1] == p[k + 1]);
        }
        lemma_reach_filled(g, v0, v1, val, inh, x, y, q);
        let n = p.len() - 2;
        assert(q.last() == p[n]);
        assert(open_cell(g, v0, val, inh, p[n].0, p[n].1));
        assert(adjacent(p[n].0, p[n].1, p[n + 1].0, p[n + 1].1));
        assert(open_cell(g, v0, val, inh, p[n + 1].0, p[n + 1].1));
        assert(in_array(p[n].0, p[n].1));
    }
}

/// Sets `val` on every position that a walk between enterable positions not
/// yet at `val` leads to from `(x, y)`; `inh` restricts the walk to
/// inhabitable tiles.
fn fill(g: &Grid, v: &mut Layer, x: i32, y: i32, val: i32, inh: bool)
    requires
        dims_ok(g.width as int, g.height as int),
    ensures
        forall|i: int, j: int|
            in_array(i, j) ==> #[trigger] final(v)[i][j] == old(v)[i][j] || final(v)[i][j] == val,
        open_cell(g, *old(v), val, inh, x as int, y as int) ==> final(v)[x as int][y as int] == val,
        fill_closed(g, *old(v), *final(v), val, inh),
        forall|i: int, j: int|
            in_array(i, j) && old(v)[i][j] != val && #[trigger] final(v)[i][j] == val ==> reaches(
                g,
                *old(v),
                val,
                inh,
                x as int,
                y as int,
                i,
                j,
            ),
    decreases total(*old(v), ne_val(val)),
{
    let ghost v0 = *v;
    if x < 0 || x >= g.width || y < 0 || y >= g.height {
        return;
    }
    if inh && !is_inhabitable(g.tiles[x as usize][y as usize].cl) {
        return;
    }
    if v[x as usize][y as usize] == val {
        return;
    }
    v[x as usize][y as usize] = val;
    proof {
        let p = seq![(x as int, y as int)];
        assert(is_path(g, v0, val, inh, p));
        assert(forall|i: int, j: int| in_array(i, j) ==> ne_val(val)(#[trigger] v[i][j]) <= ne_val(val)(v0[i][j]));
        lemma_layer_sum_strict(v0, *v, ne_val(val), MAX_WIDTH as int, x as int, y as int);
    }
    for k in 0..DIRECTIONS
        invariant
            dims_ok(g.width as int, g.height as int),
            0 <= x < g.width,
            0 <= y < g.height,
            open_cell(g, v0, val, inh, x as int, y as int),
            v[x as int][y as int] == val,
            v0 == *old(v),
            total(*v, ne_val(val)) < total(v0, ne_val(val)),
            forall|i: int, j: int| in_array(i, j) ==> #[trigger] v[i][j] == v0[i][j] || v[i][j] == val,
            forall|m: int|
                0 <= m < k ==> #[trigger] fill_ok(g, inh, x + dir_di(m), y + dir_dj(m)) ==> v[x + dir_di(m)][y + dir_dj(m)] == val,
            forall|a: int, b: int, c: int, d: int|
                in_array(a, b) && v0[a][b] != val && v[a][b] == val && (a, b) != (x as int, y as int)
                    && #[trigger] adjacent(a, b, c, d) && fill_ok(g, inh, c, d) ==> #[trigger] v[c][d] == val,
            forall|i: int, j: int|
                in_array(i, j) && v0[i][j] != val && #[trigger] v[i][j] == val ==> reaches(
                    g,
                    v0,
                    val,
                    inh,
                    x as int,
                    y as int,
                    i,
                    j,
                ),
    {
        let dk = dir(k);
        let nx = x + dk.i;
        let ny = y + dk.j;
        let ghost va = *v;
        assert(total(va, ne_val(val)) < total(*old(v), ne_val(val)));
        fill(g, v, nx, ny, val, inh);
        let ghost vb = *v;
        proof {
            assert(forall|i: int, j: int| in_array(i, j) ==> ne_val(val)(#[trigger] vb[i][j]) <= ne_val(val)(va[i][j]));
            lemma_layer_sum_mono(va, vb, ne_val(val), MAX_WIDTH as int);
            assert forall|i: int, j: int|
                in_array(i, j) && v0[i][j] != val && #[trigger] vb[i][j] == val implies reaches(
                    g,
                    v0,
                    val,
                    inh,
                    x as int,
                    y as int,
                    i,
                    j,
                ) by {
                if va[i][j] != val {
                    assert(reaches(g, va, val, inh, nx as int, ny as int, i, j));
                    let p = choose|p: Seq<(int, int)>|
                        is_path(g, va, val, inh, p) && p[0] == (nx as int, ny as int) && p[p.len() - 1] == (i, j);
                    assert(adjacent(x as int, y as int, nx as int, ny as int));
                    lemma_extend_path(g, v0, va, val, inh, x as int, y as int, p);
                    let q = seq![(x as int, y as int)] + p;
                    assert(q[q.len() - 1] == (i, j));
                    assert(is_path(g, v0, val, inh, q));
                }
            }
            assert forall|m: int|
                0 <= m < k + 1 && #[trigger] fill_ok(g, inh, x + dir_di(m), y + dir_dj(m)) implies vb[x + dir_di(m)][y
                    + dir_dj(m)] == val by {
                if m < k {
                    assert(in_array(x + dir_di(m), y + dir_dj(m)));
                } else {
                    assert(in_array(nx as int, ny as int));
                }
            }
            assert forall|a: int, b: int, c: int, d: int|
                in_array(a, b) && v0[a][b] != val && vb[a][b] == val && (a, b) != (x as int, y as int)
                    && #[trigger] adjacent(a, b, c, d) && fill_ok(g, inh, c, d) implies #[trigger] vb[c][d] == val by {
                assert(in_array(c, d));
                if va[a][b] != val {
                } else {
                    assert(va[c][d] == val);
                }
            }
        }
    }
    proof {
        let v1 = *v;
        assert forall|a: int, b: int, c: int, d: int|
            in_array(a, b) && v0[a][b] != val && v1[a][b] == val && #[trigger] adjacent(a, b, c, d)
                && fill_ok(g, inh, c, d) implies #[trigger] v1[c][d] == val by {
            if (a, b) == (x as int, y as int) {
                let m: int = if c - a == -1 && d - b == 0 {
                    0
                } else if c - a == 1 && d - b == 0 {
                    1
                } else if c - a == 0 && d - b == -1 {
                    2
                } else if c - a == 0 && d - b == 1 {
                    3
                } else if c - a == 1 && d - b == -1 {
                    4
                } else {
                    5
                };
                assert(c == x + dir_di(m) && d == y + dir_dj(m));
                assert(fill_ok(g, inh, x + dir_di(m), y + dir_dj(m)));
            }
        }
    }
}

/// Spreads `val` over the region of positions in play around `(x, y)` whose
/// value differs from `val`: afterwards every position that a walk of
/// neighbouring such positions leads to from `(x, y)` holds `val`, and the
/// other positions are unchanged.
pub fn even(g: &Grid, v: &mut Layer, x: i32, y: i32, val: i32)
    requires
        dims_ok(g.width as int, g.height as int),
    ensures
        filled(g, *old(v), *final(v), val, false, x as int, y as int),
{
    let ghost v0 = *v;
    fill(g, v, x, y, val, false);
    proof {
        lemma_fill_exact(g, v0, *v, val, false, x as int, y as int);
    }
}

proof fn lemma_fill_exact(g: &Grid, v0: Layer, v1: Layer, val: i32, inh: bool, x: int, y: int)
    requires
        dims_ok(g.width as int, g.height as int),
        forall|i: int, j: int| in_array(i, j) ==> #[trigger] v1[i][j] == v0[i][j] || v1[i][j] == val,
        open_cell(g, v0, val, inh, x, y) ==> v1[x][y] == val,
        fill_closed(g, v0, v1, val, inh),
        forall|i: int, j: int|
            in_array(i, j) && v0[i][j] != val && #[trigger] v1[i][j] == val ==> reaches(g, v0, val, inh, x, y, i, j),
    ensures
        filled(g, v0, v1, val, inh, x, y),
{
    assert forall|i: int, j: int| in_array(i, j) implies #[trigger] v1[i][j] == if reaches(
        g,
        v0,
        val,
        inh,
        x,
        y,
        i,
        j,
    ) {
        val
    } else {
        v0[i][j]
    } by {
        if reaches(g, v0, val, inh, x, y, i, j) {
            let p = choose|p: Seq<(int, int)>|
                is_path(g, v0, val, inh, p) && p[0] == (x, y) && p[p.len() - 1] == (i, j);
            lemma_reach_filled(g, v0, v1, val, inh, x, y, p);
        }
    }
}

// ---------------------------------------------------------------------------
// Decaying influence
// ---------------------------------------------------------------------------

pub open spec fn spec_abs(x: int) -> int {
    if x < 0 {
        -x
    } else {
        x
    }
}

/// `v0` moved by `factor` times `t`, and never below 0.
pub open spec fn clamp(v0: int, factor: int, t: int) -> int {
    if v0 + factor * t < 0 {
        0
    } else {
        v0 + factor * t
    }
}

/// The updates of a spread of `val` cannot overflow `i32`: on the positions
/// in play (the only ones a spread reads) both layers are non-negative and
/// leave room for the rise.
pub open spec fn spread_room(g: &Grid, u0: Layer, v0: Layer, val: i32, factor: i32) -> bool {
    forall|i: int, j: int|
        #![trigger u0[i][j]]
        #![trigger v0[i][j]]
        in_grid(g, i, j) ==> {
            &&& 0 <= u0[i][j]
            &&& 0 <= v0[i][j]
            &&& val - u0[i][j] >= i32::MIN
            &&& spec_abs(factor as int) * (spec_max(u0[i][j] as int, val as int) - u0[i][j]) <= i32::MAX
            &&& factor > 0 ==> v0[i][j] + spec_abs(factor as int) * (spec_max(u0[i][j] as int, val as int)
                - u0[i][j]) <= i32::MAX
        }
}

/// Each raised position passes at least half its value on to its passable neighbours.
pub open spec fn spread_closed(g: &Grid, u0: Layer, u1: Layer) -> bool {
    forall|a: int, b: int, c: int, d: int|
        in_array(a, b) && u1[a][b] > u0[a][b] && #[trigger] adjacent(a, b, c, d) && passable(g, c, d)
            ==> #[trigger] u1[c][d] >= u1[a][b] / 2
}

/// Each raised position got its value from the source `(x, y)` (the value
/// `val`) or as half the value of a raised neighbour.
pub open spec fn spread_justified(g: &Grid, u0: Layer, u1: Layer, x: int, y: int, val: i32) -> bool {
    forall|a: int, b: int|
        in_array(a, b) && #[trigger] u1[a][b] > u0[a][b] ==> ((a == x && b == y && u1[a][b] == val)
            || exists|c: int, d: int|
            #![trigger u1[c][d]]
            adjacent(a, b, c, d) && in_array(c, d) && u1[c][d] > u0[c][d] && u1[a][b] == u1[c][d] / 2)
}

/// Influence only grows, and only on passable positions, up to at most `val`.
pub open spec fn raise_range(g: &Grid, u0: Layer, u1: Layer, val: int) -> bool {
    forall|i: int, j: int|
        in_array(i, j) ==> u0[i][j] <= #[trigger] u1[i][j] && (u1[i][j] > u0[i][j] ==> u1[i][j] <= val
            && passable(g, i, j))
}

/// `v1` is `v0` moved by `factor` times the rise from `u0` to `u1`, never
/// below 0, where `u` rose; elsewhere `v` stays.
pub open spec fn v_follows(u0: Layer, v0: Layer, u1: Layer, v1: Layer, factor: i32) -> bool {
    forall|i: int, j: int|
        in_array(i, j) ==> #[trigger] v1[i][j] == if u1[i][j] == u0[i][j] {
            v0[i][j] as int
        } else {
            clamp(v0[i][j] as int, factor as int, u1[i][j] - u0[i][j])
        }
}

/// What a spread of `val` from `(x, y)` does to the influence layer `u` and
/// the accumulated layer `v`: influence only grows, and only on passable
/// positions, up to at most `val`; the source gets at least `val`; the raised
/// positions are closed under halving towards passable neighbours and each is
/// explained by the source or a raised neighbour; `v` moves by `factor` times
/// the rise of `u`, never below 0.
pub open spec fn spread_post(
    g: &Grid,
    u0: Layer,
    v0: Layer,
    u1: Layer,
    v1: Layer,
    x: int,
    y: int,
    val: i32,
    factor: i32,
) -> bool {
    &&& raise_range(g, u0, u1, val as int)
    &&& passable(g, x, y) ==> u1[x][y] >= val
    &&& spread_closed(g, u0, u1)
    &&& spread_justified(g, u0, u1, x, y, val)
    &&& v_follows(u0, v0, u1, v1, factor)
}

/// Two layers that agree on every position are equal.
pub proof fn lemma_layer_ext(a: Layer, b: Layer)
    requires
        forall|i: int, j: int| in_array(i, j) ==> #[trigger] a[i][j] == b[i][j],
    ensures
        a == b,
{
    assert forall|i: int| 0 <= i < MAX_WIDTH implies #[trigger] a[i] =~= b[i] by {
        assert forall|j: int| 0 <= j < MAX_HEIGHT implies #[trigger] a[i][j] == b[i][j] by {
            assert(in_array(i, j));
        }
    }
    assert(a =~= b);
}

#[verifier::spinoff_prover]
#[verifier::rlimit(60)]
proof fn lemma_spread_le(g: &Grid, u0: Layer, u1: Layer, u2: Layer, x: int, y: int, val: i32, t: int)
    requires
        forall|i: int, j: int| in_array(i, j) ==> 0 <= #[trigger] u0[i][j],
        raise_range(g, u0, u1, val as int),
        raise_range(g, u0, u2, val as int),
        passable(g, x, y) ==> u2[x][y] >= val,
        spread_closed(g, u0, u2),
        spread_justified(g, u0, u1, x, y, val),
        t >= 1,
    ensures
        forall|i: int, j: int| in_array(i, j) && #[trigger] u1[i][j] >= t ==> u1[i][j] <= u2[i][j],
    decreases val + 1 - t,
{
    if t > val {
        assert forall|i: int, j: int| in_array(i, j) && #[trigger] u1[i][j] >= t implies u1[i][j] <= u2[i][j] by {
            assert(u0[i][j] <= u2[i][j]);
        }
    } else {
        lemma_spread_le(g, u0, u1, u2, x, y, val, t + 1);
        assert forall|i: int, j: int| in_array(i, j) && #[trigger] u1[i][j] >= t implies u1[i][j] <= u2[i][j] by {
            assert(u0[i][j] <= u2[i][j]);
            if u1[i][j] == t && u1[i][j] > u0[i][j] {
                assert(passable(g, i, j));
                if i == x && j == y && u1[i][j] == val {
                } else {
                    let (c, d) = choose|c: int, d: int|
                        adjacent(i, j, c, d) && in_array(c, d) && u1[c][d] > u0[c][d] && u1[i][j] == u1[c][d] / 2;
                    assert(u1[c][d] >= t + 1);
                    assert(u1[c][d] <= u2[c][d]);
                    assert(u2[c][d] > u0[c][d]);
                    assert(adjacent(c, d, i, j));
                    assert(u2[i][j] >= u2[c][d] / 2);
                }
            }
        }
    }
}

/// A spread is deterministic: from the same layers, source, value and
/// factor, the layers after it are the same.
pub proof fn lemma_spread_unique(
    g: &Grid,
    u0: Layer,
    v0: Layer,
    u1: Layer,
    v1: Layer,
    u2: Layer,
    v2: Layer,
    x: int,
    y: int,
    val: i32,
    factor: i32,
)
    requires
        forall|i: int, j: int| in_array(i, j) ==> 0 <= #[trigger] u0[i][j],
        spread_post(g, u0, v0, u1, v1, x, y, val, factor),
        spread_post(g, u0, v0, u2, v2, x, y, val, factor),
    ensures
        u1 == u2,
        v1 == v2,
{
    lemma_spread_le(g, u0, u1, u2, x, y, val, 1);
    lemma_spread_le(g, u0, u2, u1, x, y, val, 1);
    assert forall|i: int, j: int| in_array(i, j) implies #[trigger] u1[i][j] == u2[i][j] by {
        assert(u0[i][j] <= u1[i][j] && u0[i][j] <= u2[i][j]);
        if u1[i][j] > u0[i][j] {
            assert(u1[i][j] <= u2[i][j]);
        }
        if u2[i][j] > u0[i][j] {
            assert(u2[i][j] <= u1[i][j]);
        }
    }
    lemma_layer_ext(u1, u2);
    assert forall|i: int, j: int| in_array(i, j) implies #[trigger] v1[i][j] == v2[i][j] by {}
    lemma_layer_ext(v1, v2);
}

/// A fill is deterministic: from the same layer, the filled layers are the same.
pub proof fn lemma_filled_unique(g: &Grid, v0: Layer, v1: Layer, v2: Layer, val: i32, inh: bool, x: int, y: int)
    requires
        filled(g, v0, v1, val, inh, x, y),
        filled(g, v0, v2, val, inh, x, y),
    ensures
        v1 == v2,
{
    assert forall|i: int, j: int| in_array(i, j) implies #[trigger] v1[i][j] == v2[i][j] by {}
    lemma_layer_ext(v1, v2);
}

proof fn lemma_clamp_compose(v0: int, f: int, t1: int, t2: int)
    requires
        v0 >= 0,
        0 <= t1 <= t2,
    ensures
        clamp(clamp(v0, f, t1), f, t2 - t1) == clamp(v0, f, t2),
{
    assert(f * t1 + f * (t2 - t1) == f * t2) by (nonlinear_arith);
    if f >= 0 {
        assert(f * t1 >= 0) by (nonlinear_arith)
            requires
                f >= 0,
                t1 >= 0,
        ;
        assert(f * (t2 - t1) >= 0) by (nonlinear_arith)
            requires
                f >= 0,
                t2 - t1 >= 0,
        ;
    } else {
        assert(f * (t2 - t1) <= 0) by (nonlinear_arith)
            requires
                f < 0,
                t2 - t1 >= 0,
        ;
    }
}

proof fn lemma_room_mono(f: int, a: int, b: int)
    requires
        0 <= a <= b,
    ensures
        spec_abs(f) * a <= spec_abs(f) * b,
        f * a <= spec_abs(f) * a,
        -(spec_abs(f) * a) <= f * a,
{
    assert(spec_abs(f) * a <= spec_abs(f) * b) by (nonlinear_arith)
        requires
            0 <= a <= b,
            spec_abs(f) >= 0,
    ;
    if f >= 0 {
    } else {
        assert(f * a == -(spec_abs(f) * a)) by (nonlinear_arith)
            requires
                f < 0,
                spec_abs(f) == -f,
        ;
        assert(spec_abs(f) * a >= 0) by (nonlinear_arith)
            requires
                a >= 0,
                spec_abs(f) >= 0,
        ;
    }
}


/// The neighbours `0..k` of `(x, y)` that are passable have influence at least `val / 2`.
pub open spec fn nbrs_done(g: &Grid, u: Layer, x: int, y: int, val: i32, k: int) -> bool {
    forall|m: int|
        0 <= m < k ==> #[trigger] passable(g, x + dir_di(m), y + dir_dj(m)) ==> u[x + dir_di(m)][y
            + dir_dj(m)] >= val / 2
}

/// Closure of `spread_closed` at every raised position but `(x, y)`.
pub open spec fn closed_except(g: &Grid, u0: Layer, u: Layer, x: int, y: int) -> bool {
    forall|a: int, b: int, c: int, d: int|
        in_array(a, b) && u[a][b] > u0[a][b] && (a, b) != (x, y) && #[trigger] adjacent(a, b, c, d)
            && passable(g, c, d) ==> #[trigger] u[c][d] >= u[a][b] / 2
}

/// Invariant of the loop over the neighbours of the source in `spread`.
pub open spec fn spread_inv(
    g: &Grid,
    u0: Layer,
    v0: Layer,
    u: Layer,
    v: Layer,
    x: int,
    y: int,
    val: i32,
    factor: i32,
    k: int,
) -> bool {
    &&& passable(g, x, y)
    &&& val > u0[x][y]
    &&& u[x][y] == val
    &&& spread_room(g, u0, v0, val, factor)
    &&& raise_range(g, u0, u, val as int)
    &&& nbrs_done(g, u, x, y, val, k)
    &&& closed_except(g, u0, u, x, y)
    &&& spread_justified(g, u0, u, x, y, val)
    &&& v_follows(u0, v0, u, v, factor)
}

#[verifier::spinoff_prover]
#[verifier::rlimit(40)]
proof fn lemma_spread_child_room(
    g: &Grid,
    u0: Layer,
    v0: Layer,
    ua: Layer,
    va: Layer,
    val: i32,
    factor: i32,
)
    requires
        dims_ok(g.width as int, g.height as int),
        val >= 0,
        spread_room(g, u0, v0, val, factor),
        raise_range(g, u0, ua, val as int),
        v_follows(u0, v0, ua, va, factor),
    ensures
        spread_room(g, ua, va, (val / 2) as i32, factor),
{
    assert forall|i: int, j: int| in_grid(g, i, j) implies {
        &&& 0 <= ua[i][j]
        &&& 0 <= va[i][j]
        &&& val / 2 - ua[i][j] >= i32::MIN
        &&& spec_abs(factor as int) * (spec_max(ua[i][j] as int, (val / 2) as int) - ua[i][j]) <= i32::MAX
        &&& factor > 0 ==> va[i][j] + spec_abs(factor as int) * (spec_max(ua[i][j] as int, (val / 2) as int)
            - ua[i][j]) <= i32::MAX
    } by {
        assert(in_array(i, j));
        assert(0 <= u0[i][j]);
        assert(0 <= v0[i][j]);
        assert(u0[i][j] <= ua[i][j]);
        let t1 = ua[i][j] - u0[i][j];
        let t2 = spec_max(ua[i][j] as int, (val / 2) as int) - u0[i][j];
        let t3 = spec_max(u0[i][j] as int, val as int) - u0[i][j];
        assert(0 <= t1 <= t2 <= t3);
        lemma_room_mono(factor as int, t2, t3);
        lemma_room_mono(factor as int, t1, t2);
        lemma_room_mono(factor as int, t2 - t1, t3);
        assert(spec_abs(factor as int) * t2 == spec_abs(factor as int) * t1 + spec_abs(factor as int) * (
        t2 - t1)) by (nonlinear_arith);
        assert(factor * 0int == 0) by (nonlinear_arith);
        assert(va[i][j] == clamp(v0[i][j] as int, factor as int, t1));
    }
}

#[verifier::spinoff_prover]
#[verifier::rlimit(40)]
proof fn lemma_step_v(u0: Layer, v0: Layer, ua: Layer, va: Layer, ub: Layer, vb: Layer, factor: i32)
    requires
        forall|i: int, j: int| in_array(i, j) && u0[i][j] < ub[i][j] ==> 0 <= #[trigger] v0[i][j],
        forall|i: int, j: int| in_array(i, j) ==> u0[i][j] <= #[trigger] ua[i][j] && ua[i][j] <= ub[i][j],
        v_follows(u0, v0, ua, va, factor),
        v_follows(ua, va, ub, vb, factor),
    ensures
        v_follows(u0, v0, ub, vb, factor),
{
    assert forall|i: int, j: int| in_array(i, j) implies #[trigger] vb[i][j] == if ub[i][j] == u0[i][j] {
        v0[i][j] as int
    } else {
        clamp(v0[i][j] as int, factor as int, ub[i][j] - u0[i][j])
    } by {
        assert(u0[i][j] <= ua[i][j]);
        if ub[i][j] != u0[i][j] {
            assert(0 <= v0[i][j]);
            assert(factor * 0int == 0) by (nonlinear_arith);
            lemma_clamp_compose(v0[i][j] as int, factor as int, ua[i][j] - u0[i][j], ub[i][j] - u0[i][j]);
        }
    }
}

#[verifier::spinoff_prover]
#[verifier::rlimit(40)]
proof fn lemma_step_closed(g: &Grid, u0: Layer, ua: Layer, ub: Layer, x: int, y: int, hv: int)
    requires
        closed_except(g, u0, ua, x, y),
        spread_closed(g, ua, ub),
        forall|i: int, j: int| in_array(i, j) ==> #[trigger] ua[i][j] <= ub[i][j],
        dims_ok(g.width as int, g.height as int),
    ensures
        closed_except(g, u0, ub, x, y),
{
    assert forall|a: int, b: int, c: int, d: int|
        in_array(a, b) && ub[a][b] > u0[a][b] && (a, b) != (x, y)
            && #[trigger] adjacent(a, b, c, d) && passable(g, c, d) implies #[trigger] ub[c][d] >= ub[a][b] / 2 by {
        assert(in_array(c, d));
        assert(ua[c][d] <= ub[c][d]);
        assert(ua[a][b] <= ub[a][b]);
        if ub[a][b] > ua[a][b] {
        } else {
            assert(ua[c][d] >= ua[a][b] / 2);
        }
    }
}

#[verifier::spinoff_prover]
#[verifier::rlimit(40)]
proof fn lemma_step_just(
    g: &Grid,
    u0: Layer,
    ua: Layer,
    ub: Layer,
    x: int,
    y: int,
    nx: int,
    ny: int,
    val: i32,
)
    requires
        adjacent(x, y, nx, ny),
        in_array(x, y),
        u0[x][y] < val,
        ua[x][y] == val,
        ub[x][y] == val,
        forall|i: int, j: int|
            in_array(i, j) ==> u0[i][j] <= #[trigger] ua[i][j] && (ua[i][j] > u0[i][j] ==> passable(g, i, j)),
        forall|i: int, j: int| in_array(i, j) ==> #[trigger] ua[i][j] <= ub[i][j],
        spread_justified(g, u0, ua, x, y, val),
        spread_justified(g, ua, ub, nx, ny, (val / 2) as i32),
        spread_closed(g, ua, ub),
    ensures
        spread_justified(g, u0, ub, x, y, val),
{
    assert forall|a: int, b: int|
        in_array(a, b) && #[trigger] ub[a][b] > u0[a][b] implies ((a == x && b == y && ub[a][b] == val)
            || exists|c: int, d: int|
            #![trigger ub[c][d]]
            adjacent(a, b, c, d) && in_array(c, d) && ub[c][d] > u0[c][d] && ub[a][b] == ub[c][d] / 2) by {
        assert(ua[a][b] <= ub[a][b]);
        if ub[a][b] > ua[a][b] {
            if a == nx && b == ny && ub[a][b] == val / 2 {
                assert(adjacent(a, b, x, y));
                assert(ub[x][y] > u0[x][y]);
            } else {
                let (c, d) = choose|c: int, d: int|
                    adjacent(a, b, c, d) && in_array(c, d) && ub[c][d] > ua[c][d] && ub[a][b] == ub[c][d] / 2;
                assert(ua[c][d] >= u0[c][d]);
                assert(ub[c][d] > u0[c][d]);
            }
        } else {
            if a == x && b == y && ua[a][b] == val {
            } else {
                assert(ua[a][b] > u0[a][b]);
                let (c, d) = choose|c: int, d: int|
                    adjacent(a, b, c, d) && in_array(c, d) && ua[c][d] > u0[c][d] && ua[a][b] == ua[c][d] / 2;
                assert(ua[c][d] <= ub[c][d]);
                if ub[c][d] > ua[c][d] {
                    assert(adjacent(c, d, a, b));
                    assert(passable(g, a, b));
                    assert(ub[a][b] >= ub[c][d] / 2);
                }
                assert(ub[c][d] > u0[c][d]);
            }
        }
    }
}

#[verifier::spinoff_prover]
#[verifier::rlimit(40)]
proof fn lemma_spread_step(
    g: &Grid,
    u0: Layer,
    v0: Layer,
    ua: Layer,
    va: Layer,
    ub: Layer,
    vb: Layer,
    x: int,
    y: int,
    nx: int,
    ny: int,
    val: i32,
    factor: i32,
    k: int,
)
    requires
        dims_ok(g.width as int, g.height as int),
        0 <= k < DIRECTIONS,
        nx == x + dir_di(k),
        ny == y + dir_dj(k),
        spread_inv(g, u0, v0, ua, va, x, y, val, factor, k),
        spread_room(g, ua, va, (val / 2) as i32, factor),
        spread_post(g, ua, va, ub, vb, nx, ny, (val / 2) as i32, factor),
    ensures
        spread_inv(g, u0, v0, ub, vb, x, y, val, factor, k + 1),
{
    assert(in_array(x, y));
    assert(ua[x][y] <= ub[x][y]);
    assert(ub[x][y] == val);
    assert(forall|i: int, j: int| in_array(i, j) ==> #[trigger] ua[i][j] <= ub[i][j]);
    assert forall|i: int, j: int| in_array(i, j) && u0[i][j] < ub[i][j] implies 0 <= #[trigger] v0[i][j] by {
        assert(u0[i][j] <= ua[i][j]);
        assert(passable(g, i, j));
    }
    lemma_step_v(u0, v0, ua, va, ub, vb, factor);
    assert forall|i: int, j: int|
        in_array(i, j) implies u0[i][j] <= #[trigger] ub[i][j] && (ub[i][j] > u0[i][j] ==> ub[i][j] <= val
            && passable(g, i, j)) by {
        assert(ua[i][j] <= ub[i][j]);
    }
    assert forall|m: int|
        0 <= m < k + 1 && #[trigger] passable(g, x + dir_di(m), y + dir_dj(m)) implies ub[x + dir_di(m)][y
            + dir_dj(m)] >= val / 2 by {
        assert(in_array(x + dir_di(m), y + dir_dj(m)));
        assert(ua[x + dir_di(m)][y + dir_dj(m)] <= ub[x + dir_di(m)][y + dir_dj(m)]);
    }
    lemma_step_closed(g, u0, ua, ub, x, y, 0);
    lemma_step_just(g, u0, ua, ub, x, y, nx, ny, val);
}

/// Direction from `(a, b)` to its neighbour `(c, d)`.
pub open spec fn dir_of(a: int, b: int, c: int, d: int) -> int {
    if c - a == -1 && d - b == 0 {
        0
    } else if c - a == 1 && d - b == 0 {
        1
    } else if c - a == 0 && d - b == -1 {
        2
    } else if c - a == 0 && d - b == 1 {
        3
    } else if c - a == 1 && d - b == -1 {
        4
    } else {
        5
    }
}

/// Raises the influence `u` from `(x, y)` outwards: a passable position whose
/// influence is below `val` gets `val`, `v` there moves by `factor` times the
/// rise (never below 0), and its neighbours are raised in turn with half of
/// `val`.
pub fn spread(g: &Grid, u: &mut Layer, v: &mut Layer, x: i32, y: i32, val: i32, factor: i32)
    requires
        dims_ok(g.width as int, g.height as int),
        spread_room(g, *old(u), *old(v), val, factor),
    ensures
        spread_post(g, *old(u), *old(v), *final(u), *final(v), x as int, y as int, val, factor),
    decreases val,
{
    let ghost u0 = *u;
    let ghost v0 = *v;
    if x < 0 || x >= g.width || y < 0 || y >= g.height || !is_inhabitable(
        g.tiles[x as usize][y as usize].cl,
    ) {
        proof {
            assert(v_follows(u0, v0, u0, v0, factor));
        }
        return;
    }
    let d = val - u[x as usize][y as usize];
    if d > 0 {
        proof {
            assert(in_array(x as int, y as int));
            assert(d * factor == factor * d) by (nonlinear_arith);
            lemma_room_mono(factor as int, d as int, d as int);
            assert(spec_max(u0[x as int][y as int] as int, val as int) == val);
            if factor <= 0 {
                assert(factor * d <= 0) by (nonlinear_arith)
                    requires
                        factor <= 0,
                        d > 0,
                ;
            }
        }
        v[x as usize][y as usize] = max_i32(0, v[x as usize][y as usize] + d * factor);
        u[x as usize][y as usize] = val;
        proof {
            assert(in_grid(g, x as int, y as int));
            assert(0 <= v0[x as int][y as int]);
            assert forall|i: int, j: int| in_array(i, j) implies #[trigger] v[i][j] == if u[i][j] == u0[i][j] {
                v0[i][j] as int
            } else {
                clamp(v0[i][j] as int, factor as int, u[i][j] - u0[i][j])
            } by {
                if i == x && j == y {
                    assert(u[i][j] - u0[i][j] == d);
                } else {
                    assert(u[i][j] == u0[i][j]);
                    assert(v[i][j] == v0[i][j]);
                }
            }
        }
        for k in 0..DIRECTIONS
            invariant
                dims_ok(g.width as int, g.height as int),
                spread_inv(g, u0, v0, *u, *v, x as int, y as int, val, factor, k as int),
        {
            let dk = dir(k);
            let nx = x + dk.i;
            let ny = y + dk.j;
            let ghost ua = *u;
            let ghost va = *v;
            proof {
                lemma_spread_child_room(g, u0, v0, ua, va, val, factor);
            }
            spread(g, u, v, nx, ny, val / 2, factor);
            proof {
                lemma_spread_step(g, u0, v0, ua, va, *u, *v, x as int, y as int, nx as int, ny as int, val, factor, k as int);
            }
        }
        proof {
            let u1 = *u;
            assert(in_array(x as int, y as int));
            assert forall|a: int, b: int, c: int, d: int|
                in_array(a, b) && u1[a][b] > u0[a][b] && #[trigger] adjacent(a, b, c, d) && passable(g, c, d)
                    implies #[trigger] u1[c][d] >= u1[a][b] / 2 by {
                if (a, b) == (x as int, y as int) {
                    let m = dir_of(a, b, c, d);
                    assert(c == x + dir_di(m) && d == y + dir_dj(m));
                    assert(passable(g, x + dir_di(m), y + dir_dj(m)));
                }
            }
        }
    } else {
        proof {
            assert(v_follows(u0, v0, u0, v0, factor));
        }
    }
}

// ---------------------------------------------------------------------------
// Distance to the nearest start location
// ---------------------------------------------------------------------------

pub open spec fn nat_of(x: i32) -> nat {
    if x >= 0 {
        x as nat
    } else {
        0
    }
}

pub open spec fn as_nat() -> spec_fn(i32) -> nat {
    |x: i32| nat_of(x)
}

/// Distances only shrink, and only on passable positions, to at least `dist`;
/// a position whose distance shrank is labelled `val`, the others keep their label.
pub open spec fn near_range(g: &Grid, d0: Layer, d1: Layer, u0: Layer, u1: Layer, val: i32, dist: int) -> bool {
    forall|i: int, j: int|
        in_array(i, j) ==> #[trigger] d1[i][j] <= d0[i][j] && (d1[i][j] < d0[i][j] ==> d1[i][j] >= dist
            && passable(g, i, j) && u1[i][j] == val) && (d1[i][j] == d0[i][j] ==> u1[i][j] == u0[i][j])
}

/// A passable neighbour of a position whose distance shrank is at most one step further.
pub open spec fn near_closed(g: &Grid, d0: Layer, d1: Layer) -> bool {
    forall|a: int, b: int, c: int, e: int|
        in_array(a, b) && d1[a][b] < d0[a][b] && #[trigger] adjacent(a, b, c, e) && passable(g, c, e)
            ==> #[trigger] d1[c][e] <= d1[a][b] + 1
}

/// A position whose distance shrank is the source at `dist`, or one step
/// further than a neighbour whose distance shrank.
pub open spec fn near_justified(d0: Layer, d1: Layer, x: int, y: int, dist: int) -> bool {
    forall|a: int, b: int|
        in_array(a, b) && #[trigger] d1[a][b] < d0[a][b] ==> ((a == x && b == y && d1[a][b] == dist)
            || exists|c: int, e: int|
            #![trigger d1[c][e]]
            adjacent(a, b, c, e) && in_array(c, e) && d1[c][e] < d0[c][e] && d1[a][b] == d1[c][e] + 1)
}

/// What a search from `(x, y)` at distance `dist`, labelling with `val`, does
/// to the distance layer `d` and the label layer `u`.
pub open spec fn near_post(
    g: &Grid,
    u0: Layer,
    d0: Layer,
    u1: Layer,
    d1: Layer,
    x: int,
    y: int,
    val: i32,
    dist: int,
) -> bool {
    &&& near_range(g, d0, d1, u0, u1, val, dist)
    &&& passable(g, x, y) ==> d1[x][y] <= dist
    &&& near_closed(g, d0, d1)
    &&& near_justified(d0, d1, x, y, dist)
}

pub open spec fn near_inv(
    g: &Grid,
    u0: Layer,
    d0: Layer,
    u: Layer,
    d: Layer,
    x: int,
    y: int,
    val: i32,
    dist: int,
    k: int,
) -> bool {
    &&& passable(g, x, y)
    &&& dist < d0[x][y]
    &&& d[x][y] == dist
    &&& 0 <= dist
    &&& forall|i: int, j: int| in_array(i, j) ==> 0 <= #[trigger] d[i][j]
    &&& total(d, as_nat()) < total(d0, as_nat())
    &&& near_range(g, d0, d, u0, u, val, dist)
    &&& forall|m: int|
        0 <= m < k ==> #[trigger] passable(g, x + dir_di(m), y + dir_dj(m)) ==> d[x + dir_di(m)][y
            + dir_dj(m)] <= dist + 1
    &&& forall|a: int, b: int, c: int, e: int|
        in_array(a, b) && d[a][b] < d0[a][b] && (a, b) != (x, y) && #[trigger] adjacent(a, b, c, e)
            && passable(g, c, e) ==> #[trigger] d[c][e] <= d[a][b] + 1
    &&& near_justified(d0, d, x, y, dist)
}

#[verifier::spinoff_prover]
#[verifier::rlimit(40)]
proof fn lemma_near_just(
    g: &Grid,
    d0: Layer,
    da: Layer,
    db: Layer,
    x: int,
    y: int,
    nx: int,
    ny: int,
    dist: int,
)
    requires
        adjacent(x, y, nx, ny),
        in_array(x, y),
        d0[x][y] > dist,
        da[x][y] == dist,
        db[x][y] == dist,
        forall|i: int, j: int|
            in_array(i, j) ==> #[trigger] da[i][j] <= d0[i][j] && (da[i][j] < d0[i][j] ==> passable(g, i, j)),
        forall|i: int, j: int| in_array(i, j) ==> #[trigger] db[i][j] <= da[i][j],
        near_justified(d0, da, x, y, dist),
        near_justified(da, db, nx, ny, dist + 1),
        near_closed(g, da, db),
    ensures
        near_justified(d0, db, x, y, dist),
{
    assert forall|a: int, b: int|
        in_array(a, b) && #[trigger] db[a][b] < d0[a][b] implies ((a == x && b == y && db[a][b] == dist)
            || exists|c: int, e: int|
            #![trigger db[c][e]]
            adjacent(a, b, c, e) && in_array(c, e) && db[c][e] < d0[c][e] && db[a][b] == db[c][e] + 1) by {
        assert(db[a][b] <= da[a][b]);
        if db[a][b] < da[a][b] {
            if a == nx && b == ny && db[a][b] == dist + 1 {
                assert(adjacent(a, b, x, y));
                assert(db[x][y] < d0[x][y]);
            } else {
                let (c, e) = choose|c: int, e: int|
                    adjacent(a, b, c, e) && in_array(c, e) && db[c][e] < da[c][e] && db[a][b] == db[c][e] + 1;
                assert(da[c][e] <= d0[c][e]);
            }
        } else {
            if a == x && b == y && da[a][b] == dist {
            } else {
                assert(da[a][b] < d0[a][b]);
                let (c, e) = choose|c: int, e: int|
                    adjacent(a, b, c, e) && in_array(c, e) && da[c][e] < d0[c][e] && da[a][b] == da[c][e] + 1;
                assert(db[c][e] <= da[c][e]);
                if db[c][e] < da[c][e] {
                    assert(adjacent(c, e, a, b));
                    assert(passable(g, a, b));
                    assert(db[a][b] <= db[c][e] + 1);
                }
                assert(db[c][e] < d0[c][e]);
            }
        }
    }
}

#[verifier::spinoff_prover]
#[verifier::rlimit(40)]
proof fn lemma_near_closed_step(g: &Grid, d0: Layer, da: Layer, db: Layer, x: int, y: int)
    requires
        dims_ok(g.width as int, g.height as int),
        forall|i: int, j: int| in_array(i, j) ==> #[trigger] db[i][j] <= da[i][j],
        forall|a: int, b: int, c: int, e: int|
            in_array(a, b) && da[a][b] < d0[a][b] && (a, b) != (x, y) && #[trigger] adjacent(a, b, c, e)
                && passable(g, c, e) ==> #[trigger] da[c][e] <= da[a][b] + 1,
        near_closed(g, da, db),
    ensures
        forall|a: int, b: int, c: int, e: int|
            in_array(a, b) && db[a][b] < d0[a][b] && (a, b) != (x, y) && #[trigger] adjacent(a, b, c, e)
                && passable(g, c, e) ==> #[trigger] db[c][e] <= db[a][b] + 1,
{
    assert forall|a: int, b: int, c: int, e: int|
        in_array(a, b) && db[a][b] < d0[a][b] && (a, b) != (x, y)
            && #[trigger] adjacent(a, b, c, e) && passable(g, c, e) implies #[trigger] db[c][e] <= db[a][b] + 1 by {
        assert(in_array(c, e));
        assert(db[c][e] <= da[c][e]);
        assert(db[a][b] <= da[a][b]);
        if db[a][b] < da[a][b] {
        } else {
            assert(da[c][e] <= da[a][b] + 1);
        }
    }
}

proof fn lemma_near_range_step(
    g: &Grid,
    u0: Layer,
    d0: Layer,
    ua: Layer,
    da: Layer,
    ub: Layer,
    db: Layer,
    val: i32,
    dist: int,
)
    requires
        near_range(g, d0, da, u0, ua, val, dist),
        near_range(g, da, db, ua, ub, val, dist + 1),
    ensures
        near_range(g, d0, db, u0, ub, val, dist),
{
    assert forall|i: int, j: int|
        in_array(i, j) implies #[trigger] db[i][j] <= d0[i][j] && (db[i][j] < d0[i][j] ==> db[i][j] >= dist
            && passable(g, i, j) && ub[i][j] == val) && (db[i][j] == d0[i][j] ==> ub[i][j] == u0[i][j]) by {
        assert(db[i][j] <= da[i][j]);
        assert(da[i][j] <= d0[i][j]);
    }
}

#[verifier::spinoff_prover]
#[verifier::rlimit(40)]
proof fn lemma_near_step(
    g: &Grid,
    u0: Layer,
    d0: Layer,
    ua: Layer,
    da: Layer,
    ub: Layer,
    db: Layer,
    x: int,
    y: int,
    nx: int,
    ny: int,
    val: i32,
    dist: int,
    k: int,
)
    requires
        dims_ok(g.width as int, g.height as int),
        0 <= k < DIRECTIONS,
        nx == x + dir_di(k),
        ny == y + dir_dj(k),
        near_inv(g, u0, d0, ua, da, x, y, val, dist, k),
        near_post(g, ua, da, ub, db, nx, ny, val, dist + 1),
    ensures
        near_inv(g, u0, d0, ub, db, x, y, val, dist, k + 1),
{
    assert(in_array(x, y));
    assert(db[x][y] <= da[x][y]);
    assert(db[x][y] == dist);
    assert(forall|i: int, j: int| in_array(i, j) ==> #[trigger] db[i][j] <= da[i][j]);
    assert forall|i: int, j: int| in_array(i, j) implies 0 <= #[trigger] db[i][j] by {
        assert(db[i][j] <= da[i][j]);
        if db[i][j] < da[i][j] {
            assert(db[i][j] >= dist + 1);
        }
    }
    assert(forall|i: int, j: int| in_array(i, j) ==> as_nat()(#[trigger] db[i][j]) <= as_nat()(da[i][j]));
    lemma_layer_sum_mono(da, db, as_nat(), MAX_WIDTH as int);
    lemma_near_range_step(g, u0, d0, ua, da, ub, db, val, dist);
    assert forall|m: int|
        0 <= m < k + 1 && #[trigger] passable(g, x + dir_di(m), y + dir_dj(m)) implies db[x + dir_di(m)][y + dir_dj(m)] <= dist + 1 by {
        assert(in_array(x + dir_di(m), y + dir_dj(m)));
        assert(db[x + dir_di(m)][y + dir_dj(m)] <= da[x + dir_di(m)][y + dir_dj(m)]);
    }
    lemma_near_closed_step(g, d0, da, db, x, y);
    assert forall|i: int, j: int| in_array(i, j) implies #[trigger] da[i][j] <= d0[i][j] && (da[i][j] < d0[i][j] ==> passable(g, i, j)) by {}
    lemma_near_just(g, d0, da, db, x, y, nx, ny, dist);
}

/// Labels with `val` every passable position that a walk of passable
/// positions from `(x, y)` reaches in fewer steps (counting from `dist`)
/// than its distance in `d`, and lowers that distance.
pub(crate) fn floodfill_closest(g: &Grid, u: &mut Layer, d: &mut Layer, x: i32, y: i32, val: i32, dist: i32)
    requires
        dims_ok(g.width as int, g.height as int),
        0 <= dist,
        forall|i: int, j: int| in_array(i, j) ==> 0 <= #[trigger] old(d)[i][j],
    ensures
        near_post(g, *old(u), *old(d), *final(u), *final(d), x as int, y as int, val, dist as int),
    decreases total(*old(d), as_nat()),
{
    let ghost u0 = *u;
    let ghost d0 = *d;
    if x < 0 || x >= g.width || y < 0 || y >= g.height || !is_inhabitable(
        g.tiles[x as usize][y as usize].cl,
    ) || d[x as usize][y as usize] <= dist {
        return;
    }
    u[x as usize][y as usize] = val;
    d[x as usize][y as usize] = dist;
    proof {
        assert(in_array(x as int, y as int));
        assert(forall|i: int, j: int| in_array(i, j) ==> as_nat()(#[trigger] d[i][j]) <= as_nat()(d0[i][j]));
        lemma_layer_sum_strict(d0, *d, as_nat(), MAX_WIDTH as int, x as int, y as int);
    }
    for k in 0..DIRECTIONS
        invariant
            dims_ok(g.width as int, g.height as int),
            d0 == *old(d),
            near_inv(g, u0, d0, *u, *d, x as int, y as int, val, dist as int, k as int),
    {
        let dk = dir(k);
        let nx = x + dk.i;
        let ny = y + dk.j;
        let ghost ua = *u;
        let ghost da = *d;
        proof {
            assert(in_array(x as int, y as int));
        }
        floodfill_closest(g, u, d, nx, ny, val, dist + 1);
        proof {
            lemma_near_step(g, u0, d0, ua, da, *u, *d, x as int, y as int, nx as int, ny as int, val, dist as int, k as int);
        }
    }
    proof {
        let d1 = *d;
        assert(in_array(x as int, y as int));
        assert forall|a: int, b: int, c: int, e: int|
            in_array(a, b) && d1[a][b] < d0[a][b] && #[trigger] adjacent(a, b, c, e) && passable(g, c, e)
                implies #[trigger] d1[c][e] <= d1[a][b] + 1 by {
            if (a, b) == (x as int, y as int) {
                let m = dir_of(a, b, c, e);
                assert(c == x + dir_di(m) && e == y + dir_dj(m));
                assert(passable(g, x + dir_di(m), y + dir_dj(m)));
            }
        }
    }
}

// ---------------------------------------------------------------------------
// Connectivity of the owned tiles
// ---------------------------------------------------------------------------

/// Marks with `val` the passable region around `(x, y)` of positions not yet at `val`.
fn floodfill(g: &Grid, u: &mut Layer, x: i32, y: i32, val: i32)
    requires
        dims_ok(g.width as int, g.height as int),
    ensures
        filled(g, *old(u), *final(u), val, true, x as int, y as int),
{
    let ghost u0 = *u;
    fill(g, u, x, y, val, true);
    proof {
        lemma_fill_exact(g, u0, *u, val, true, x as int, y as int);
    }
}

pub open spec fn zero_layer() -> Layer {
    [[0i32; MAX_HEIGHT]; MAX_WIDTH]
}

/// Position `(i, j)` is in play and owned by a player.
pub open spec fn owned(g: &Grid, i: int, j: int) -> bool {
    in_grid(g, i, j) && g.tiles[i][j].pl != NEUTRAL
}

/// `(a, b)` comes before `(c, d)` in the scan by columns, then rows.
pub open spec fn before(a: int, b: int, c: int, d: int) -> bool {
    a < c || (a == c && b < d)
}

/// `(a, b)` is the first owned position of the scan.
pub open spec fn first_owned(g: &Grid, a: int, b: int) -> bool {
    owned(g, a, b) && forall|c: int, d: int| #[trigger] owned(g, c, d) ==> !before(c, d, a, b)
}

/// `(c, d)` is in the region of passable tiles connected to `(a, b)`.
pub open spec fn connected_to(g: &Grid, a: int, b: int, c: int, d: int) -> bool {
    reaches(g, zero_layer(), 1, true, a, b, c, d)
}

/// Every owned position other than the first one of the scan lies in the
/// region of passable tiles connected to that first one.
pub open spec fn connected_spec(g: &Grid) -> bool {
    forall|a: int, b: int, c: int, d: int|
        #[trigger] first_owned(g, a, b) && #[trigger] owned(g, c, d) && (c, d) != (a, b) ==> connected_to(
            g,
            a,
            b,
            c,
            d,
        )
}

/// Tells whether all owned tiles lie in one region of passable tiles (the
/// region of the first owned tile of the scan).
pub fn is_connected(g: &Grid) -> (r: bool)
    requires
        dims_ok(g.width as int, g.height as int),
    ensures
        r == connected_spec(g),
{
    let mut m: Layer = [[0i32; MAX_HEIGHT]; MAX_WIDTH];
    let mut colored = false;
    let ghost mut fa: int = 0;
    let ghost mut fb: int = 0;
    let w = g.width as usize;
    let h = g.height as usize;
    for i in 0..w
        invariant
            w == g.width,
            h == g.height,
            dims_ok(g.width as int, g.height as int),
            !colored ==> m == zero_layer(),
            !colored ==> forall|c: int, d: int| #[trigger] owned(g, c, d) ==> !before(c, d, i as int, 0),
            colored ==> first_owned(g, fa, fb) && before(fa, fb, i as int, 0),
            colored ==> filled(g, zero_layer(), m, 1, true, fa, fb),
            colored ==> forall|c: int, d: int|
                #[trigger] owned(g, c, d) && before(c, d, i as int, 0) && (c, d) != (fa, fb) ==> connected_to(g, fa, fb, c, d),
    {
        for j in 0..h
            invariant
                w == g.width,
                h == g.height,
                i < w,
                dims_ok(g.width as int, g.height as int),
                !colored ==> m == zero_layer(),
                !colored ==> forall|c: int, d: int| #[trigger] owned(g, c, d) ==> !before(c, d, i as int, j as int),
                colored ==> first_owned(g, fa, fb) && before(fa, fb, i as int, j as int),
                colored ==> filled(g, zero_layer(), m, 1, true, fa, fb),
                colored ==> forall|c: int, d: int|
                    #[trigger] owned(g, c, d) && before(c, d, i as int, j as int) && (c, d) != (fa, fb) ==> connected_to(g, fa, fb, c, d),
        {
            if g.tiles[i][j].pl != NEUTRAL as i32 {
                proof {
                    assert(owned(g, i as int, j as int));
                }
                if colored && m[i][j] == 0 {
                    proof {
                        assert(in_array(i as int, j as int));
                        assert(!connected_to(g, fa, fb, i as int, j as int));
                        assert(first_owned(g, fa, fb) && owned(g, i as int, j as int));
                    }
                    return false;
                }
                if !colored {
                    proof {
                        assert forall|c: int, d: int| #[trigger] owned(g, c, d) implies !before(c, d, i as int, j as int) by {}
                        fa = i as int;
                        fb = j as int;
                    }
                }
                let ghost mb = m;
                floodfill(g, &mut m, i as i32, j as i32, 1);
                proof {
                    if colored {
                        assert(in_array(i as int, j as int));
                        assert(mb[i as int][j as int] == 1);
                        assert forall|a: int, b: int| in_array(a, b) implies #[trigger] m[a][b] == mb[a][b] by {
                            if reaches(g, mb, 1, true, i as int, j as int, a, b) {
                                let p = choose|p: Seq<(int, int)>|
                                    is_path(g, mb, 1, true, p) && p[0] == (i as int, j as int) && p[p.len() - 1] == (a, b);
                                assert(open_cell(g, mb, 1, true, p[0].0, p[0].1));
                            }
                        }
                        assert(m =~= mb) by {
                            assert forall|a: int| 0 <= a < MAX_WIDTH implies #[trigger] m[a] =~= mb[a] by {
                                assert forall|b: int| 0 <= b < MAX_HEIGHT implies #[trigger] m[a][b] == mb[a][b] by {
                                    assert(in_array(a, b));
                                }
                            }
                        }
                        assert(connected_to(g, fa, fb, i as int, j as int) || (i as int, j as int) == (fa, fb)) by {
                            assert(m[i as int][j as int] == 1);
                        }
                    }
                }
                colored = true;
            }
        }
    }
    proof {
        assert forall|a: int, b: int, c: int, d: int|
            #[trigger] first_owned(g, a, b) && #[trigger] owned(g, c, d) && (c, d) != (a, b) implies connected_to(
                g,
                a,
                b,
                c,
                d,
            ) by {
            assert(colored);
            if (a, b) != (fa, fb) {
                assert(!before(a, b, fa, fb));
                assert(!before(fa, fb, a, b));
            }
        }
    }
    true
}

} // verus!
