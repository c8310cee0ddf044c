//! Countries, building and the computer opponents (kings).
use vstd::prelude::*;
use crate::common::{
    ConfigDif, DIRECTIONS, FLAG_OFF, FLAG_ON, FLAG_POWER, Loc, MAX_HEIGHT, MAX_PLAYER, MAX_POP, MAX_WIDTH,
    TileClass, dir, dir_di, dir_dj, max_i32,
};
use crate::flags::{CALL_CAP, add_power_flag, calls_at_most, flags_consistent, remove_power_flag, scan_cap};
use crate::flood::{
    even, filled, lemma_filled_unique, lemma_layer_ext, lemma_spread_unique, spread, spread_post, spread_room, spec_abs,
};
use crate::grid::{
    FlagGrid, Grid, Layer, dims_ok, flag_grid_wf, grid_wf, in_array, in_grid, is_inhabitable, passable, pop,
    spec_is_inhabitable,
};
use crate::rng::{gen_range, new_rng};
use crate::common::spec_max;

verus! {

/// The treasury of a country.
#[derive(Clone, Copy, Debug)]
pub struct Country {
    pub gold: i64,
}

pub const PRICE_VILLAGE: i64 = 160;

pub const PRICE_TOWN: i64 = 240;

pub const PRICE_CASTLE: i64 = 320;

/// How a king places its flags.
#[derive(Clone, Copy, Debug, PartialEq, Eq, Structural)]
pub enum Strategy {
    Idle,
    AggrGreedy,
    OneGreedy,
    PersistentGreedy,
    Opportunist,
    Noble,
    Midas,
}

/// A computer opponent: the player it plays and how much it values each position.
#[derive(Clone, Copy, Debug)]
pub struct King {
    pub value: Layer,
    pub pl: i32,
    pub strategy: Strategy,
}

/// Largest value that a king gives a position.
pub const KING_VALUE_MAX: i32 = 64;

/// A king plays a player and values every position between 0 and `KING_VALUE_MAX`.
pub open spec fn king_wf(k: &King) -> bool {
    &&& 0 <= k.pl < MAX_PLAYER
    &&& forall|i: int, j: int| in_array(i, j) ==> 0 <= #[trigger] k.value[i][j] <= KING_VALUE_MAX
}

// ---------------------------------------------------------------------------
// Building
// ---------------------------------------------------------------------------

/// Price of upgrading a tile of class `cl`, and the class it becomes; none for
/// the classes that cannot be upgraded.
pub open spec fn upgrade(cl: TileClass) -> Option<(int, TileClass)> {
    match cl {
        TileClass::Grassland => Some((PRICE_VILLAGE as int, TileClass::Village)),
        TileClass::Village => Some((PRICE_TOWN as int, TileClass::Town)),
        TileClass::Town => Some((PRICE_CASTLE as int, TileClass::Castle)),
        _ => None,
    }
}

/// The class that a tile of class `cl` degrades to; none for non-cities.
pub open spec fn downgrade(cl: TileClass) -> Option<TileClass> {
    match cl {
        TileClass::Village => Some(TileClass::Grassland),
        TileClass::Town => Some(TileClass::Village),
        TileClass::Castle => Some(TileClass::Town),
        _ => None,
    }
}

/// `g1` is `g0` with the class of tile `(i, j)` set to `cl`.
pub open spec fn set_class(g0: &Grid, g1: &Grid, i: int, j: int, cl: TileClass) -> bool {
    &&& g1.width == g0.width
    &&& g1.height == g0.height
    &&& forall|a: int, b: int|
        in_array(a, b) ==> #[trigger] g1.tiles[a][b] == if a == i && b == j {
            crate::grid::Tile { cl: cl, ..g0.tiles[a][b] }
        } else {
            g0.tiles[a][b]
        }
}

/// Player `pl` can upgrade tile `(i, j)`: it owns it, the tile can be
/// upgraded and the country can pay.
pub open spec fn can_build(g: &Grid, c: &Country, pl: int, i: int, j: int) -> bool {
    &&& in_grid(g, i, j)
    &&& g.tiles[i][j].pl == pl
    &&& upgrade(g.tiles[i][j].cl) is Some
    &&& c.gold >= upgrade(g.tiles[i][j].cl).unwrap().0
}

/// What `build` does: on success (`r == 0`) the tile is upgraded and paid for;
/// otherwise (`r == -1`) nothing changes.
pub open spec fn build_post(
    g0: &Grid,
    c0: &Country,
    g1: &Grid,
    c1: &Country,
    pl: int,
    i: int,
    j: int,
    r: int,
) -> bool {
    if can_build(g0, c0, pl, i, j) {
        let (price, cl) = upgrade(g0.tiles[i][j].cl).unwrap();
        &&& r == 0
        &&& set_class(g0, g1, i, j, cl)
        &&& c1.gold == c0.gold - price
    } else {
        &&& r == -1
        &&& g1 == g0
        &&& c1 == c0
    }
}

/// Player `pl` upgrades its tile `(i, j)` (grassland to village, village to
/// town, town to castle) if the country can pay; returns 0 on success, -1 otherwise.
pub fn build(g: &mut Grid, c: &mut Country, pl: i32, i: i32, j: i32) -> (r: i32)
    requires
        dims_ok(old(g).width as int, old(g).height as int),
    ensures
        build_post(old(g), old(c), final(g), final(c), pl as int, i as int, j as int, r as int),
{
    if i >= 0 && i < g.width && j >= 0 && j < g.height && g.tiles[i as usize][j as usize].pl == pl {
        let (price, cl) = match g.tiles[i as usize][j as usize].cl {
            TileClass::Grassland => (PRICE_VILLAGE, TileClass::Village),
            TileClass::Village => (PRICE_TOWN, TileClass::Town),
            TileClass::Town => (PRICE_CASTLE, TileClass::Castle),
            _ => {
                return -1;
            },
        };
        if c.gold >= price {
            let ghost g0 = *g;
            g.tiles[i as usize][j as usize].cl = cl;
            c.gold = c.gold - price;
            proof {
                assert(set_class(&g0, g, i as int, j as int, cl));
            }
            return 0;
        }
    }
    -1
}

/// What `degrade` does: a city tile in play goes one class down (`r == 0`);
/// otherwise nothing changes (`r == -1`).
pub open spec fn degrade_post(g0: &Grid, g1: &Grid, i: int, j: int, r: int) -> bool {
    if in_grid(g0, i, j) && downgrade(g0.tiles[i][j].cl) is Some {
        &&& r == 0
        &&& set_class(g0, g1, i, j, downgrade(g0.tiles[i][j].cl).unwrap())
    } else {
        &&& r == -1
        &&& g1 == g0
    }
}

/// Degrades the city at `(i, j)` by one class (castle to town, town to
/// village, village to grassland); returns 0 on success, -1 otherwise.
pub fn degrade(g: &mut Grid, i: i32, j: i32) -> (r: i32)
    requires
        dims_ok(old(g).width as int, old(g).height as int),
    ensures
        degrade_post(old(g), final(g), i as int, j as int, r as int),
{
    if i >= 0 && i < g.width && j >= 0 && j < g.height {
        let cl = match g.tiles[i as usize][j as usize].cl {
            TileClass::Village => TileClass::Grassland,
            TileClass::Town => TileClass::Village,
            TileClass::Castle => TileClass::Town,
            _ => {
                return -1;
            },
        };
        let ghost g0 = *g;
        g.tiles[i as usize][j as usize].cl = cl;
        proof {
            assert(set_class(&g0, g, i as int, j as int, cl));
        }
        return 0;
    }
    -1
}

/// Sets the player and the strategy of a king.
pub fn king_init(k: &mut King, pl: i32, strat: Strategy, _g: &Grid, _dif: ConfigDif)
    ensures
        final(k).pl == pl,
        final(k).strategy == strat,
        final(k).value == old(k).value,
{
    k.pl = pl;
    k.strategy = strat;
}

// ---------------------------------------------------------------------------
// Choosing where to build
// ---------------------------------------------------------------------------

/// `(i, j)` is a tile of player `pl` whose passable neighbours all belong to `pl` too.
pub open spec fn interior(g: &Grid, pl: int, i: int, j: int) -> bool {
    &&& passable(g, i, j)
    &&& g.tiles[i][j].pl == pl
    &&& forall|c: int, d: int|
        #[trigger] crate::grid::adjacent(i, j, c, d) && passable(g, c, d) ==> g.tiles[c][d].pl == pl
}

/// Weight of a tile class for building: grassland 1, village 8, town 32.
pub open spec fn build_base(cl: TileClass) -> int {
    match cl {
        TileClass::Grassland => 1,
        TileClass::Village => 8,
        TileClass::Town => 32,
        _ => 0,
    }
}

/// How much king `k` wants to build on `(i, j)`: on an interior tile with an
/// army of at least a tenth of `MAX_POP`, the class weight times the room left
/// for the army (times the position's value plus 10 for Midas); 0 elsewhere.
pub open spec fn build_score(k: &King, g: &Grid, i: int, j: int) -> int {
    let army = pop(g.tiles[i][j], k.pl as int);
    if interior(g, k.pl as int, i, j) && army >= MAX_POP / 10 {
        let base = if k.strategy == Strategy::Midas {
            build_base(g.tiles[i][j].cl) * (k.value[i][j] + 10)
        } else {
            build_base(g.tiles[i][j].cl)
        };
        base * (MAX_POP - army)
    } else {
        0
    }
}

/// `(bi, bj)` is where king `k` builds: the first position of the scan with
/// the largest positive score.
pub open spec fn best_build(k: &King, g: &Grid, bi: int, bj: int) -> bool {
    &&& in_grid(g, bi, bj)
    &&& build_score(k, g, bi, bj) > 0
    &&& forall|c: int, d: int| #[trigger] in_grid(g, c, d) ==> build_score(k, g, c, d) <= build_score(k, g, bi, bj)
    &&& forall|c: int, d: int|
        #[trigger] in_grid(g, c, d) && (c < bi || (c == bi && d < bj)) ==> build_score(k, g, c, d) < build_score(
            k,
            g,
            bi,
            bj,
        )
}

fn is_interior(g: &Grid, pl: i32, i: i32, j: i32) -> (r: bool)
    requires
        dims_ok(g.width as int, g.height as int),
        in_grid(g, i as int, j as int),
    ensures
        r == interior(g, pl as int, i as int, j as int),
{
    let t = g.tiles[i as usize][j as usize];
    if !(t.pl == pl && is_inhabitable(t.cl)) {
        return false;
    }
    let mut all_mine = true;
    for n in 0..DIRECTIONS
        invariant
            dims_ok(g.width as int, g.height as int),
            in_grid(g, i as int, j as int),
            all_mine == forall|m: int|
                0 <= m < n ==> #[trigger] passable(g, i + dir_di(m), j + dir_dj(m)) ==> g.tiles[i + dir_di(m)][j
                    + dir_dj(m)].pl == pl,
    {
        let dn = dir(n);
        let ni = i + dn.i;
        let nj = j + dn.j;
        if ni >= 0 && ni < g.width && nj >= 0 && nj < g.height && is_inhabitable(
            g.tiles[ni as usize][nj as usize].cl,
        ) {
            all_mine = all_mine && (g.tiles[ni as usize][nj as usize].pl == pl);
        }
        proof {
            assert(passable(g, i + dir_di(n as int), j + dir_dj(n as int)) == (ni >= 0 && ni < g.width && nj >= 0 && nj < g.height && spec_is_inhabitable(g.tiles[ni as int][nj as int].cl)));
        }
    }
    proof {
        if all_mine {
            assert forall|c: int, d: int|
                #[trigger] crate::grid::adjacent(i as int, j as int, c, d) && passable(g, c, d) implies g.tiles[c][d].pl == pl by {
                let m = crate::flood::dir_of(i as int, j as int, c, d);
                assert(c == i + dir_di(m) && d == j + dir_dj(m));
                assert(passable(g, i + dir_di(m), j + dir_dj(m)));
            }
        } else {
            let m = choose|m: int|
                0 <= m < DIRECTIONS && #[trigger] passable(g, i + dir_di(m), j + dir_dj(m)) && g.tiles[i + dir_di(m)][j + dir_dj(m)].pl != pl;
            assert(crate::grid::adjacent(i as int, j as int, i + dir_di(m), j + dir_dj(m)));
        }
    }
    all_mine
}

fn score_of(k: &King, g: &Grid, i: i32, j: i32) -> (s: i64)
    requires
        grid_wf(g),
        king_wf(k),
        in_grid(g, i as int, j as int),
    ensures
        s == build_score(k, g, i as int, j as int),
{
    let ok = is_interior(g, k.pl, i, j);
    let t = g.tiles[i as usize][j as usize];
    proof {
        assert(in_array(i as int, j as int));
        assert(crate::grid::tile_wf(t));
        assert(0 <= pop(t, k.pl as int) <= MAX_POP);
    }
    let army = t.units[k.pl as usize][0];
    if !(ok && army >= MAX_POP / 10) {
        return 0;
    }
    let base: i64 = match t.cl {
        TileClass::Grassland => 1,
        TileClass::Village => 8,
        TileClass::Town => 32,
        _ => 0,
    };
    let room: i64 = (MAX_POP - army) as i64;
    if k.strategy == Strategy::Midas {
        let kv = k.value[i as usize][j as usize] as i64;
        proof {
            assert(0 <= k.value[i as int][j as int] <= KING_VALUE_MAX);
            assert(0 <= base * (kv + 10) <= 32 * (KING_VALUE_MAX + 10)) by (nonlinear_arith)
                requires
                    0 <= base <= 32,
                    0 <= kv <= KING_VALUE_MAX,
            ;
            assert(0 <= (base * (kv + 10)) * room <= 32 * (KING_VALUE_MAX + 10) * 500) by (nonlinear_arith)
                requires
                    0 <= base * (kv + 10) <= 32 * (KING_VALUE_MAX + 10),
                    0 <= room <= 500,
            ;
        }
        (base * (kv + 10)) * room
    } else {
        proof {
            assert(0 <= base * room <= 32 * 500) by (nonlinear_arith)
                requires
                    0 <= base <= 32,
                    0 <= room <= 500,
            ;
        }
        base * room
    }
}

/// Only the owner builds: on a position off the map or a tile of another
/// player, `build` fails and changes neither the map nor the treasury; a
/// success means that the tile was the builder's, that it stays the
/// builder's, and that it was paid for.
pub proof fn lemma_build_needs_owner(
    g0: &Grid,
    c0: &Country,
    g1: &Grid,
    c1: &Country,
    pl: int,
    i: int,
    j: int,
    r: int,
)
    requires
        dims_ok(g0.width as int, g0.height as int),
        build_post(g0, c0, g1, c1, pl, i, j, r),
    ensures
        !(in_grid(g0, i, j) && g0.tiles[i][j].pl == pl) ==> r == -1 && *g1 == *g0 && *c1 == *c0,
        r == 0 ==> in_grid(g0, i, j) && g0.tiles[i][j].pl == pl && g1.tiles[i][j].pl == pl && c1.gold < c0.gold,
{
    if r == 0 {
        assert(can_build(g0, c0, pl, i, j));
        assert(in_array(i, j));
    }
}

/// Building is wanted on every upgradable tile inside a king's land whose
/// army is at least a tenth of `MAX_POP` and can still grow.
pub proof fn lemma_build_wanted(k: &King, g: &Grid, i: int, j: int)
    requires
        dims_ok(g.width as int, g.height as int),
        king_wf(k),
        interior(g, k.pl as int, i, j),
        MAX_POP / 10 <= pop(g.tiles[i][j], k.pl as int) < MAX_POP,
        upgrade(g.tiles[i][j].cl) is Some,
    ensures
        build_score(k, g, i, j) > 0,
        k.strategy != Strategy::Midas && g.tiles[i][j].cl == TileClass::Grassland ==> build_score(k, g, i, j)
            == MAX_POP - pop(g.tiles[i][j], k.pl as int),
{
    assert(in_array(i, j));
    let army = pop(g.tiles[i][j], k.pl as int);
    let b = build_base(g.tiles[i][j].cl);
    assert(b >= 1);
    let v = k.value[i][j] as int;
    assert(0 <= v);
    assert(b * (v + 10) >= 1) by (nonlinear_arith)
        requires
            b >= 1,
            v >= 0,
    ;
    assert(b * (MAX_POP - army) >= 1) by (nonlinear_arith)
        requires
            b >= 1,
            MAX_POP - army >= 1,
    ;
    assert((b * (v + 10)) * (MAX_POP - army) >= 1) by (nonlinear_arith)
        requires
            b * (v + 10) >= 1,
            MAX_POP - army >= 1,
    ;
}

/// The higher the class, the more building is wanted: of two tiles inside a
/// king's land with the same army (at least a tenth of `MAX_POP`, below it)
/// and the same value for the king, the one whose class the other's upgrades
/// to scores higher, as long as it can be upgraded itself.
pub proof fn lemma_build_prefers_higher_class(k: &King, g: &Grid, i: int, j: int, a: int, b: int)
    requires
        dims_ok(g.width as int, g.height as int),
        king_wf(k),
        interior(g, k.pl as int, i, j),
        interior(g, k.pl as int, a, b),
        MAX_POP / 10 <= pop(g.tiles[i][j], k.pl as int) < MAX_POP,
        pop(g.tiles[a][b], k.pl as int) == pop(g.tiles[i][j], k.pl as int),
        k.value[a][b] == k.value[i][j],
        upgrade(g.tiles[i][j].cl) is Some,
        upgrade(g.tiles[i][j].cl).unwrap().1 == g.tiles[a][b].cl,
        upgrade(g.tiles[a][b].cl) is Some,
    ensures
        build_score(k, g, i, j) < build_score(k, g, a, b),
        g.tiles[i][j].cl == TileClass::Grassland ==> build_score(k, g, a, b) == 8 * build_score(k, g, i, j),
        g.tiles[i][j].cl == TileClass::Village ==> build_score(k, g, a, b) == 4 * build_score(k, g, i, j),
{
    assert(in_array(i, j));
    let army = pop(g.tiles[i][j], k.pl as int);
    let b1 = build_base(g.tiles[i][j].cl);
    let b2 = build_base(g.tiles[a][b].cl);
    assert(1 <= b1 < b2);
    let m = if k.strategy == Strategy::Midas { k.value[i][j] + 10 } else { 1 };
    assert(m >= 1);
    assert(b1 * m < b2 * m) by (nonlinear_arith)
        requires
            b1 < b2,
            m >= 1,
    ;
    assert((b1 * m) * (MAX_POP - army) < (b2 * m) * (MAX_POP - army)) by (nonlinear_arith)
        requires
            b1 * m < b2 * m,
            MAX_POP - army >= 1,
    ;
    if k.strategy == Strategy::Midas {
        assert(build_score(k, g, i, j) == (b1 * m) * (MAX_POP - army));
        assert(build_score(k, g, a, b) == (b2 * m) * (MAX_POP - army));
    } else {
        assert(b1 * m == b1 && b2 * m == b2);
    }
    assert((b2 * m) * (MAX_POP - army) == (b2 / b1) * ((b1 * m) * (MAX_POP - army))) by (nonlinear_arith)
        requires
            b1 == 1 && b2 == 8 || b1 == 8 && b2 == 32,
    ;
}

/// A king builds whenever building is wanted somewhere: if one of its
/// upgradable interior tiles has an army of at least a tenth of `MAX_POP`
/// that can still grow, `builder_default` builds (see `build`) on a best
/// position and does not give up with -1 for want of a candidate.
pub proof fn lemma_builder_builds_when_wanted(
    k: &King,
    g0: &Grid,
    c0: &Country,
    g1: &Grid,
    c1: &Country,
    r: int,
    i: int,
    j: int,
)
    requires
        dims_ok(g0.width as int, g0.height as int),
        king_wf(k),
        built(k, g0, c0, g1, c1, r),
        interior(g0, k.pl as int, i, j),
        MAX_POP / 10 <= pop(g0.tiles[i][j], k.pl as int) < MAX_POP,
        upgrade(g0.tiles[i][j].cl) is Some,
    ensures
        exists|bi: int, bj: int| #[trigger] best_build(k, g0, bi, bj) && build_post(g0, c0, g1, c1, k.pl as int, bi, bj, r),
{
    lemma_build_wanted(k, g0, i, j);
    assert(in_grid(g0, i, j));
}

/// Degrading a tile right after a successful build on it gives back the map
/// as it was (the gold spent is not given back).
pub proof fn lemma_build_then_degrade(
    g0: &Grid,
    c0: &Country,
    g1: &Grid,
    c1: &Country,
    g2: &Grid,
    pl: int,
    i: int,
    j: int,
    r: int,
)
    requires
        dims_ok(g0.width as int, g0.height as int),
        build_post(g0, c0, g1, c1, pl, i, j, 0),
        degrade_post(g1, g2, i, j, r),
    ensures
        r == 0,
        *g2 == *g0,
{
    assert(can_build(g0, c0, pl, i, j));
    assert(in_array(i, j));
    let cl0 = g0.tiles[i][j].cl;
    let cl1 = upgrade(cl0).unwrap().1;
    assert(g1.tiles[i][j].cl == cl1);
    assert(downgrade(cl1) == Some(cl0));
    assert forall|a: int| 0 <= a < MAX_WIDTH implies #[trigger] g2.tiles[a] =~= g0.tiles[a] by {
        assert forall|b: int| 0 <= b < MAX_HEIGHT implies #[trigger] g2.tiles[a][b] == g0.tiles[a][b] by {
            assert(in_array(a, b));
            assert(g1.tiles[a][b] == if a == i && b == j {
                crate::grid::Tile { cl: cl1, ..g0.tiles[a][b] }
            } else {
                g0.tiles[a][b]
            });
        }
    }
    assert(g2.tiles =~= g0.tiles);
}

/// What `builder_default` does: king `k` builds (see `build_post`) on a best
/// position of the scan, or, when no position scores above 0, nothing
/// changes and the result is -1.
pub open spec fn built(k: &King, g0: &Grid, c0: &Country, g1: &Grid, c1: &Country, r: int) -> bool {
    ||| exists|bi: int, bj: int| #[trigger] best_build(k, g0, bi, bj) && build_post(g0, c0, g1, c1, k.pl as int, bi, bj, r)
    ||| (forall|a: int, b: int| #[trigger] in_grid(g0, a, b) ==> build_score(k, g0, a, b) <= 0) && r == -1 && *g1
        == *g0 && *c1 == *c0
}

/// King `k` builds on the first position of the scan with the largest
/// positive `build_score`, if there is one (see `build`); returns what
/// `build` returns there, or -1 when no position scores above 0.
pub fn builder_default(k: &King, c: &mut Country, g: &mut Grid, _fg: &mut crate::grid::FlagGrid) -> (r: i32)
    requires
        grid_wf(old(g)),
        king_wf(k),
    ensures
        built(k, old(g), old(c), final(g), final(c), r as int),
        grid_wf(final(g)),
        *final(_fg) == *old(_fg),
{
    let mut i_best: i32 = 0;
    let mut j_best: i32 = 0;
    let mut v_best: i64 = 0;
    let w = g.width;
    let h = g.height;
    let mut i: i32 = 0;
    while i < w
        invariant
            grid_wf(g),
            king_wf(k),
            w == g.width,
            h == g.height,
            0 <= i <= w,
            v_best >= 0,
            v_best == 0 ==> forall|a: int, b: int|
                #[trigger] in_grid(g, a, b) && a < i ==> build_score(k, g, a, b) <= 0,
            v_best > 0 ==> in_grid(g, i_best as int, j_best as int) && i_best < i && build_score(
                k,
                g,
                i_best as int,
                j_best as int,
            ) == v_best,
            v_best > 0 ==> forall|a: int, b: int|
                #[trigger] in_grid(g, a, b) && a < i ==> build_score(k, g, a, b) <= v_best,
            v_best > 0 ==> forall|a: int, b: int|
                #[trigger] in_grid(g, a, b) && (a < i_best || (a == i_best && b < j_best)) ==> build_score(
                    k,
                    g,
                    a,
                    b,
                ) < v_best,
        decreases w - i,
    {
        let mut j: i32 = 0;
        while j < h
            invariant
                grid_wf(g),
                king_wf(k),
                w == g.width,
                h == g.height,
                0 <= i < w,
                0 <= j <= h,
                v_best >= 0,
                v_best == 0 ==> forall|a: int, b: int|
                    #[trigger] in_grid(g, a, b) && (a < i || (a == i && b < j)) ==> build_score(k, g, a, b) <= 0,
                v_best > 0 ==> in_grid(g, i_best as int, j_best as int) && (i_best < i || (i_best == i
                    && j_best < j)) && build_score(k, g, i_best as int, j_best as int) == v_best,
                v_best > 0 ==> forall|a: int, b: int|
                    #[trigger] in_grid(g, a, b) && (a < i || (a == i && b < j)) ==> build_score(k, g, a, b)
                        <= v_best,
                v_best > 0 ==> forall|a: int, b: int|
                    #[trigger] in_grid(g, a, b) && (a < i_best || (a == i_best && b < j_best)) ==> build_score(
                        k,
                        g,
                        a,
                        b,
                    ) < v_best,
            decreases h - j,
        {
            let v = score_of(k, g, i, j);
            if v > 0 && v > v_best {
                i_best = i;
                j_best = j;
                v_best = v;
            }
            j += 1;
        }
        i += 1;
    }
    if v_best > 0 {
        proof {
            assert(best_build(k, g, i_best as int, j_best as int));
        }
        let ghost g0 = *g;
        let r = build(g, c, k.pl, i_best, j_best);
        proof {
            if r == 0 {
                assert forall|a: int, b: int| in_array(a, b) implies crate::grid::tile_wf(#[trigger] g.tiles[a][b]) by {
                    assert(crate::grid::tile_wf(g0.tiles[a][b]));
                    assert forall|q: int| 0 <= q < MAX_PLAYER implies 0 <= #[trigger] crate::grid::pop(g.tiles[a][b], q)
                        <= MAX_POP by {
                        assert(0 <= crate::grid::pop(g0.tiles[a][b], q) <= MAX_POP);
                    }
                }
            }
        }
        r
    } else {
        -1
    }
}

// ---------------------------------------------------------------------------
// Valuing the map
// ---------------------------------------------------------------------------

/// Largest value that `king_evaluate_map` gives a position at difficulty `dif`.
pub open spec fn eval_cap(dif: ConfigDif) -> int {
    match dif {
        ConfigDif::Easiest => 11,
        ConfigDif::Easy => 18,
        _ => 34,
    }
}

/// Bounds kept while the map is valued: influences between 0 and 32, values
/// not negative, at most the influence (plus 2 once the position was
/// visited) in play, and untouched outside.
pub open spec fn eval_inv(g: &Grid, v0: Layer, u: Layer, v: Layer, i: int, j: int) -> bool {
    &&& forall|a: int, b: int| in_array(a, b) ==> 0 <= #[trigger] u[a][b] <= 32
    &&& forall|a: int, b: int| in_array(a, b) ==> 0 <= #[trigger] v[a][b]
    &&& forall|a: int, b: int| in_array(a, b) && !in_grid(g, a, b) ==> #[trigger] v[a][b] == v0[a][b]
    &&& forall|a: int, b: int|
        in_array(a, b) && in_grid(g, a, b) ==> #[trigger] v[a][b] <= u[a][b] + if a < i || (a == i && b < j) {
            2int
        } else {
            0int
        }
}

proof fn lemma_eval_room(g: &Grid, v0: Layer, u: Layer, v: Layer, i: int, j: int, val: i32)
    requires
        dims_ok(g.width as int, g.height as int),
        eval_inv(g, v0, u, v, i, j),
        forall|a: int, b: int| in_array(a, b) ==> #[trigger] v0[a][b] <= KING_VALUE_MAX,
        0 <= val <= 32,
    ensures
        spread_room(g, u, v, val, 1),
{
    assert forall|a: int, b: int| in_grid(g, a, b) implies {
        &&& 0 <= u[a][b]
        &&& 0 <= v[a][b]
        &&& val - u[a][b] >= i32::MIN
        &&& spec_abs(1int) * (spec_max(u[a][b] as int, val as int) - u[a][b]) <= i32::MAX
        &&& v[a][b] + spec_abs(1int) * (spec_max(u[a][b] as int, val as int) - u[a][b]) <= i32::MAX
    } by {
        assert(in_array(a, b));
        assert(0 <= u[a][b] <= 32);
        assert(0 <= v[a][b]);
        assert(v0[a][b] <= KING_VALUE_MAX);
        if in_grid(g, a, b) {
            assert(v[a][b] <= u[a][b] + 2);
        } else {
            assert(v[a][b] == v0[a][b]);
        }
        assert(spec_abs(1int) == 1);
        assert(spec_max(u[a][b] as int, val as int) - u[a][b] <= 32);
        assert(v[a][b] <= 100);
    }
}

/// One influence spread of value at most 32 during the valuation keeps the bounds.
fn eval_spread(g: &Grid, u: &mut Layer, v: &mut Layer, x: i32, y: i32, val: i32, Ghost(v0): Ghost<Layer>, Ghost(i): Ghost<int>, Ghost(j): Ghost<int>)
    requires
        dims_ok(g.width as int, g.height as int),
        eval_inv(g, v0, *old(u), *old(v), i, j),
        forall|a: int, b: int| in_array(a, b) ==> #[trigger] v0[a][b] <= KING_VALUE_MAX,
        0 <= val <= 32,
    ensures
        eval_inv(g, v0, *final(u), *final(v), i, j),
        spread_post(g, *old(u), *old(v), *final(u), *final(v), x as int, y as int, val, 1),
{
    proof {
        lemma_eval_room(g, v0, *u, *v, i, j, val);
    }
    let ghost u1 = *u;
    let ghost v1 = *v;
    spread(g, u, v, x, y, val, 1);
    proof {
        assert forall|a: int, b: int| in_array(a, b) implies {
            &&& 0 <= #[trigger] u[a][b] <= 32
            &&& 0 <= v[a][b]
            &&& !in_grid(g, a, b) ==> v[a][b] == v0[a][b]
            &&& in_grid(g, a, b) ==> v[a][b] <= u[a][b] + if a < i || (a == i && b < j) { 2int } else { 0int }
        } by {
            assert(0 <= u1[a][b] <= 32);
            assert(0 <= v1[a][b]);
            assert(u1[a][b] <= u[a][b]);
            assert(u[a][b] > u1[a][b] ==> passable(g, a, b));
            assert(v[a][b] == crate::flood::clamp(v1[a][b] as int, 1, u[a][b] - u1[a][b]));
            if in_grid(g, a, b) {
                assert(v1[a][b] <= u1[a][b] + if a < i || (a == i && b < j) { 2int } else { 0int });
            } else {
                assert(v1[a][b] == v0[a][b]);
            }
        }
    }
}

/// Flattening a region to 0 during the valuation keeps the bounds.
fn eval_even(g: &Grid, u: &Layer, v: &mut Layer, x: i32, y: i32, Ghost(v0): Ghost<Layer>, Ghost(i): Ghost<int>, Ghost(j): Ghost<int>)
    requires
        dims_ok(g.width as int, g.height as int),
        eval_inv(g, v0, *u, *old(v), i, j),
    ensures
        eval_inv(g, v0, *u, *final(v), i, j),
        filled(g, *old(v), *final(v), 0, false, x as int, y as int),
{
    let ghost v1 = *v;
    even(g, v, x, y, 0);
    proof {
        assert forall|a: int, b: int| in_array(a, b) implies {
            &&& 0 <= #[trigger] v[a][b]
            &&& !in_grid(g, a, b) ==> v[a][b] == v0[a][b]
            &&& in_grid(g, a, b) ==> v[a][b] <= u[a][b] + if a < i || (a == i && b < j) { 2int } else { 0int }
        } by {
            assert(0 <= u[a][b]);
            assert(0 <= v1[a][b]);
            if crate::flood::reaches(g, v1, 0, false, x as int, y as int, a, b) {
                let p = choose|p: Seq<(int, int)>|
                    crate::flood::is_path(g, v1, 0, false, p) && p[0] == (x as int, y as int) && p[p.len() - 1] == (a, b);
                assert(crate::flood::open_cell(g, v1, 0, false, p[p.len() - 1].0, p[p.len() - 1].1));
            } else {
                if in_grid(g, a, b) {
                    assert(v1[a][b] <= u[a][b] + if a < i || (a == i && b < j) { 2int } else { 0int });
                }
            }
        }
    }
}

/// What an inhabitable tile is worth before the spreads: 1, or 2 for a
/// persistent-greedy king; other tiles are worth nothing.
pub open spec fn tile_bonus(cl: TileClass, st: Strategy) -> int {
    if crate::grid::spec_is_inhabitable(cl) {
        if st == Strategy::PersistentGreedy {
            2
        } else {
            1
        }
    } else {
        0
    }
}

/// `v1` is `v0` with the value at `(i, j)` raised by `b`.
pub open spec fn bumped(v0: Layer, v1: Layer, i: int, j: int, b: int) -> bool {
    forall|a: int, c: int| in_array(a, c) ==> #[trigger] v1[a][c] == v0[a][c] + if a == i && c == j { b } else { 0 }
}

/// A spread of `val` from `(x, y)` (see `spread_post`), then the flattening
/// to 0 of the region of non-zero values around `(x, y)` (see `filled`),
/// take the influences and values from `(u0, v0)` to `(u1, v1)`.
pub open spec fn spread_even(g: &Grid, u0: Layer, v0: Layer, u1: Layer, v1: Layer, x: int, y: int, val: i32) -> bool {
    exists|vm: Layer| #[trigger] spread_post(g, u0, v0, u1, vm, x, y, val, 1) && filled(g, vm, v1, 0, false, x, y)
}

/// The influences and values `ms` before and after each spread of `val`
/// around the mine at `(i, j)`, one from each of its neighbours in turn.
pub open spec fn mine_trace(g: &Grid, i: int, j: int, val: i32, ms: Seq<(Layer, Layer)>) -> bool {
    &&& ms.len() == DIRECTIONS + 1
    &&& forall|d: int|
        0 <= d < DIRECTIONS ==> #[trigger] spread_even(
            g,
            ms[d].0,
            ms[d].1,
            ms[d + 1].0,
            ms[d + 1].1,
            i + dir_di(d),
            j + dir_dj(d),
            val,
        )
}

/// The spreads around the mine at `(i, j)` take `(u0, v0)` to `(u1, v1)`.
pub open spec fn mine_spreads(g: &Grid, u0: Layer, v0: Layer, u1: Layer, v1: Layer, i: int, j: int, val: i32) -> bool {
    exists|ms: Seq<(Layer, Layer)>| #[trigger] mine_trace(g, i, j, val, ms) && ms[0] == (u0, v0) && ms[DIRECTIONS as int] == (u1, v1)
}

/// What valuing the tile `(i, j)` does for a king of strategy `st`: the
/// tile's bonus (see `tile_bonus`), then a spread from a castle (32 for a
/// noble, 16 otherwise), a town (8) or a village (2 for a noble, 4
/// otherwise), or from each neighbour of a mine (8 for Midas, 4 otherwise).
pub open spec fn tile_valued(g: &Grid, st: Strategy, i: int, j: int, u0: Layer, v0: Layer, u1: Layer, v1: Layer) -> bool {
    let cl = g.tiles[i][j].cl;
    exists|vb: Layer|
        #[trigger] bumped(v0, vb, i, j, tile_bonus(cl, st)) && match cl {
            TileClass::Castle => spread_even(g, u0, vb, u1, v1, i, j, if st == Strategy::Noble { 32 } else { 16 }),
            TileClass::Town => spread_even(g, u0, vb, u1, v1, i, j, 8),
            TileClass::Village => spread_even(g, u0, vb, u1, v1, i, j, if st == Strategy::Noble { 2 } else { 4 }),
            TileClass::Mine => mine_spreads(
                g,
                u0,
                vb,
                u1,
                v1,
                i,
                j,
                if st == Strategy::Midas { 8 } else { 4 },
            ),
            _ => u1 == u0 && v1 == vb,
        }
}

/// The influences and values `ts` before and after each tile of column `i`, in order.
pub open spec fn col_trace(g: &Grid, st: Strategy, i: int, ts: Seq<(Layer, Layer)>) -> bool {
    &&& ts.len() == g.height + 1
    &&& forall|j: int|
        0 <= j < g.height ==> #[trigger] tile_valued(g, st, i, j, ts[j].0, ts[j].1, ts[j + 1].0, ts[j + 1].1)
}

/// Valuing the tiles of column `i` in order takes `s0` to `s1`.
pub open spec fn col_valued(g: &Grid, st: Strategy, i: int, s0: (Layer, Layer), s1: (Layer, Layer)) -> bool {
    exists|ts: Seq<(Layer, Layer)>| #[trigger] col_trace(g, st, i, ts) && ts[0] == s0 && ts[g.height as int] == s1
}

/// The influences and values `cs` before and after each column, in order.
pub open spec fn map_trace(g: &Grid, st: Strategy, cs: Seq<(Layer, Layer)>) -> bool {
    &&& cs.len() == g.width + 1
    &&& forall|i: int| 0 <= i < g.width ==> #[trigger] col_valued(g, st, i, cs[i], cs[i + 1])
}

/// Valuing the map column by column takes `s0` to `s1`.
pub open spec fn map_valued(g: &Grid, st: Strategy, s0: (Layer, Layer), s1: (Layer, Layer)) -> bool {
    exists|cs: Seq<(Layer, Layer)>| #[trigger] map_trace(g, st, cs) && cs[0] == s0 && cs[g.width as int] == s1
}

/// The valuation starts from no influence anywhere and no value in play
/// (the values out of play are those of `v_old`).
pub open spec fn eval_start(g: &Grid, v_old: Layer, u: Layer, v: Layer) -> bool {
    forall|a: int, b: int|
        in_array(a, b) ==> #[trigger] u[a][b] == 0 && v[a][b] == if in_grid(g, a, b) { 0 } else { v_old[a][b] }
}

/// The value `x` cut to its `q`-th and shifted by `r`, never below 0.
pub open spec fn cut_shift(x: int, q: int, r: int) -> int {
    spec_max(0, x / q + r)
}

/// What the difficulty `dif` makes of a value `x` in play, giving `y`: on
/// the easiest, its quarter plus a random shift from -3 to 3; on the easy
/// one, its half plus a shift from -1 to 1 (never below 0); on the other
/// difficulties the value stays.
pub open spec fn cut_value(dif: ConfigDif, x: int, y: int) -> bool {
    match dif {
        ConfigDif::Easiest => exists|r: int| -3 <= r <= 3 && y == #[trigger] cut_shift(x, 4, r),
        ConfigDif::Easy => exists|r: int| -1 <= r <= 1 && y == #[trigger] cut_shift(x, 2, r),
        _ => y == x,
    }
}

/// The values after the easier difficulties cut them (see `cut_value`); the
/// values out of play stay.
pub open spec fn dumbed(g: &Grid, dif: ConfigDif, v: Layer, v1: Layer) -> bool {
    forall|a: int, b: int|
        in_array(a, b) ==> if in_grid(g, a, b) {
            cut_value(dif, v[a][b] as int, #[trigger] v1[a][b] as int)
        } else {
            v1[a][b] == v[a][b]
        }
}

/// What `king_evaluate_map` does to king `k0`, giving `k1`: starting from
/// no influence and no value in play, the map is valued tile by tile (see
/// `map_valued`) and the values are then cut for the easier difficulties
/// (see `dumbed`); the player and the strategy stay, and the values stay
/// between 0 and `eval_cap(dif)` in play.
pub open spec fn evaluated(k0: &King, k1: &King, g: &Grid, dif: ConfigDif) -> bool {
    &&& king_wf(k1)
    &&& k1.pl == k0.pl
    &&& k1.strategy == k0.strategy
    &&& exists|u0: Layer, v0: Layer, u1: Layer, vb: Layer|
        eval_start(g, k0.value, u0, v0) && #[trigger] map_valued(g, k0.strategy, (u0, v0), (u1, vb)) && dumbed(
            g,
            dif,
            vb,
            k1.value,
        )
    &&& forall|a: int, b: int| in_array(a, b) && !in_grid(g, a, b) ==> #[trigger] k1.value[a][b] == k0.value[a][b]
    &&& forall|a: int, b: int| #[trigger] in_grid(g, a, b) ==> k1.value[a][b] <= eval_cap(dif)
}

/// Values the tile `(i, j)` for a king of strategy `st` (see `tile_valued`).
fn value_tile(g: &Grid, st: Strategy, u: &mut Layer, v: &mut Layer, i: i32, j: i32, Ghost(v0): Ghost<Layer>)
    requires
        dims_ok(g.width as int, g.height as int),
        in_grid(g, i as int, j as int),
        eval_inv(g, v0, *old(u), *old(v), i as int, j as int),
        forall|a: int, b: int| in_array(a, b) ==> #[trigger] v0[a][b] <= KING_VALUE_MAX,
    ensures
        eval_inv(g, v0, *final(u), *final(v), i as int, j + 1),
        tile_valued(g, st, i as int, j as int, *old(u), *old(v), *final(u), *final(v)),
{
    let ghost u0 = *u;
    let ghost vs = *v;
    let cl = g.tiles[i as usize][j as usize].cl;
    proof {
        assert(in_array(i as int, j as int));
        assert(v[i as int][j as int] <= u[i as int][j as int]);
        assert(u[i as int][j as int] <= 32);
    }
    if is_inhabitable(cl) {
        v[i as usize][j as usize] = v[i as usize][j as usize] + 1;
        if st == Strategy::PersistentGreedy {
            v[i as usize][j as usize] = v[i as usize][j as usize] + 1;
        }
    }
    let ghost vb = *v;
    proof {
        assert(bumped(vs, vb, i as int, j as int, tile_bonus(cl, st)));
        assert(eval_inv(g, v0, *u, *v, i as int, j + 1));
    }
    match cl {
        TileClass::Castle => {
            let val = if st == Strategy::Noble {
                32
            } else {
                16
            };
            eval_spread(g, u, v, i, j, val, Ghost(v0), Ghost(i as int), Ghost(j + 1));
            let ghost vm = *v;
            eval_even(g, u, v, i, j, Ghost(v0), Ghost(i as int), Ghost(j + 1));
            proof {
                assert(spread_post(g, u0, vb, *u, vm, i as int, j as int, val, 1));
            }
        },
        TileClass::Town => {
            eval_spread(g, u, v, i, j, 8, Ghost(v0), Ghost(i as int), Ghost(j + 1));
            let ghost vm = *v;
            eval_even(g, u, v, i, j, Ghost(v0), Ghost(i as int), Ghost(j + 1));
            proof {
                assert(spread_post(g, u0, vb, *u, vm, i as int, j as int, 8, 1));
            }
        },
        TileClass::Village => {
            let val = if st == Strategy::Noble {
                2
            } else {
                4
            };
            eval_spread(g, u, v, i, j, val, Ghost(v0), Ghost(i as int), Ghost(j + 1));
            let ghost vm = *v;
            eval_even(g, u, v, i, j, Ghost(v0), Ghost(i as int), Ghost(j + 1));
            proof {
                assert(spread_post(g, u0, vb, *u, vm, i as int, j as int, val, 1));
            }
        },
        TileClass::Mine => {
            let val = if st == Strategy::Midas {
                8
            } else {
                4
            };
            let ghost mut ms: Seq<(Layer, Layer)> = seq![(*u, *v)];
            for d in 0..DIRECTIONS
                invariant
                    dims_ok(g.width as int, g.height as int),
                    in_grid(g, i as int, j as int),
                    forall|a: int, b: int| in_array(a, b) ==> #[trigger] v0[a][b] <= KING_VALUE_MAX,
                    eval_inv(g, v0, *u, *v, i as int, j + 1),
                    val == if st == Strategy::Midas { 8i32 } else { 4i32 },
                    ms.len() == d + 1,
                    ms[0] == (u0, vb),
                    ms[d as int] == (*u, *v),
                    forall|e: int|
                        0 <= e < d ==> #[trigger] spread_even(
                            g,
                            ms[e].0,
                            ms[e].1,
                            ms[e + 1].0,
                            ms[e + 1].1,
                            i + dir_di(e),
                            j + dir_dj(e),
                            val,
                        ),
            {
                let ghost ua = *u;
                let ghost va = *v;
                let dd = dir(d);
                let ii = i + dd.i;
                let jj = j + dd.j;
                eval_spread(g, u, v, ii, jj, val, Ghost(v0), Ghost(i as int), Ghost(j + 1));
                let ghost vm = *v;
                eval_even(g, u, v, ii, jj, Ghost(v0), Ghost(i as int), Ghost(j + 1));
                proof {
                    assert(spread_post(g, ua, va, *u, vm, ii as int, jj as int, val, 1));
                    assert(spread_even(g, ua, va, *u, *v, i + dir_di(d as int), j + dir_dj(d as int), val));
                    let ms1 = ms.push((*u, *v));
                    assert forall|e: int| 0 <= e < d + 1 implies #[trigger] spread_even(
                        g,
                        ms1[e].0,
                        ms1[e].1,
                        ms1[e + 1].0,
                        ms1[e + 1].1,
                        i + dir_di(e),
                        j + dir_dj(e),
                        val,
                    ) by {
                        if e < d {
                            assert(ms1[e] == ms[e] && ms1[e + 1] == ms[e + 1]);
                        }
                    }
                    ms = ms1;
                }
            }
            proof {
                assert(mine_trace(g, i as int, j as int, val, ms));
                assert(mine_spreads(g, u0, vb, *u, *v, i as int, j as int, val));
            }
        },
        _ => {},
    }
    proof {
        assert(tile_valued(g, st, i as int, j as int, u0, vs, *u, *v));
    }
}

/// King `k` values the positions of the map (see `evaluated`): each
/// inhabitable position is worth 1 (2 for the persistent-greedy strategy);
/// around every castle, town, village and next to every mine the value is
/// raised by a decaying spread and the connected region of non-zero values
/// is then flattened to 0; on the easiest and easy difficulties, values are
/// then cut to a quarter or a half and shuffled by a small random amount.
pub fn king_evaluate_map(k: &mut King, g: &Grid, dif: ConfigDif)
    requires
        dims_ok(g.width as int, g.height as int),
        king_wf(old(k)),
    ensures
        evaluated(old(k), final(k), g, dif),
{
    let mut u: Layer = [[0i32; MAX_HEIGHT]; MAX_WIDTH];
    let ghost v0 = k.value;
    let w = g.width;
    let h = g.height;
    let mut i: i32 = 0;
    while i < w
        invariant
            dims_ok(g.width as int, g.height as int),
            w == g.width,
            h == g.height,
            0 <= i <= w,
            k.pl == old(k).pl,
            k.strategy == old(k).strategy,
            v0 == old(k).value,
            king_wf(old(k)),
            forall|a: int, b: int| in_array(a, b) ==> #[trigger] u[a][b] == 0,
            forall|a: int, b: int|
                in_array(a, b) ==> #[trigger] k.value[a][b] == if a < i && b < h { 0 } else { v0[a][b] },
        decreases w - i,
    {
        let mut j: i32 = 0;
        while j < h
            invariant
                dims_ok(g.width as int, g.height as int),
                w == g.width,
                h == g.height,
                0 <= i < w,
                0 <= j <= h,
                k.pl == old(k).pl,
                k.strategy == old(k).strategy,
                v0 == old(k).value,
                king_wf(old(k)),
                forall|a: int, b: int| in_array(a, b) ==> #[trigger] u[a][b] == 0,
                forall|a: int, b: int|
                    in_array(a, b) ==> #[trigger] k.value[a][b] == if (a < i && b < h) || (a == i && b < j) { 0 } else { v0[a][b] },
            decreases h - j,
        {
            u[i as usize][j as usize] = 0;
            k.value[i as usize][j as usize] = 0;
            j += 1;
        }
        i += 1;
    }
    let ghost us = u;
    let ghost vs = k.value;
    proof {
        assert forall|a: int, b: int| in_array(a, b) implies #[trigger] v0[a][b] <= KING_VALUE_MAX && 0 <= v0[a][b] by {}
        assert(eval_inv(g, v0, u, k.value, 0, 0));
        assert(eval_start(g, v0, us, vs));
    }
    let st = k.strategy;
    let ghost mut cs: Seq<(Layer, Layer)> = seq![(us, vs)];
    i = 0;
    while i < w
        invariant
            dims_ok(g.width as int, g.height as int),
            w == g.width,
            h == g.height,
            0 <= i <= w,
            k.pl == old(k).pl,
            k.strategy == old(k).strategy,
            st == old(k).strategy,
            v0 == old(k).value,
            forall|a: int, b: int| in_array(a, b) ==> #[trigger] v0[a][b] <= KING_VALUE_MAX,
            eval_inv(g, v0, u, k.value, i as int, 0),
            cs.len() == i + 1,
            cs[0] == (us, vs),
            cs[i as int] == (u, k.value),
            forall|c: int| 0 <= c < i ==> #[trigger] col_valued(g, st, c, cs[c], cs[c + 1]),
        decreases w - i,
    {
        let ghost mut ts: Seq<(Layer, Layer)> = seq![(u, k.value)];
        let mut j: i32 = 0;
        while j < h
            invariant
                dims_ok(g.width as int, g.height as int),
                w == g.width,
                h == g.height,
                0 <= i < w,
                0 <= j <= h,
                k.pl == old(k).pl,
                k.strategy == old(k).strategy,
                st == old(k).strategy,
                v0 == old(k).value,
                forall|a: int, b: int| in_array(a, b) ==> #[trigger] v0[a][b] <= KING_VALUE_MAX,
                eval_inv(g, v0, u, k.value, i as int, j as int),
                ts.len() == j + 1,
                ts[0] == cs[i as int],
                ts[j as int] == (u, k.value),
                forall|t: int|
                    0 <= t < j ==> #[trigger] tile_valued(g, st, i as int, t, ts[t].0, ts[t].1, ts[t + 1].0, ts[t + 1].1),
            decreases h - j,
        {
            proof {
                assert(in_grid(g, i as int, j as int));
            }
            value_tile(g, st, &mut u, &mut k.value, i, j, Ghost(v0));
            proof {
                let ts1 = ts.push((u, k.value));
                assert forall|t: int| 0 <= t < j + 1 implies #[trigger] tile_valued(
                    g,
                    st,
                    i as int,
                    t,
                    ts1[t].0,
                    ts1[t].1,
                    ts1[t + 1].0,
                    ts1[t + 1].1,
                ) by {
                    if t < j {
                        assert(ts1[t] == ts[t] && ts1[t + 1] == ts[t + 1]);
                    }
                }
                ts = ts1;
            }
            j += 1;
        }
        proof {
            assert forall|a: int, b: int|
                in_array(a, b) && in_grid(g, a, b) implies #[trigger] k.value[a][b] <= u[a][b] + if a < i + 1 || (a == i + 1 && b < 0) { 2int } else { 0int } by {
                assert(k.value[a][b] <= u[a][b] + if a < i || (a == i && b < h) { 2int } else { 0int });
            }
            assert(col_trace(g, st, i as int, ts));
            assert(col_valued(g, st, i as int, cs[i as int], (u, k.value)));
            let cs1 = cs.push((u, k.value));
            assert forall|c: int| 0 <= c < i + 1 implies #[trigger] col_valued(g, st, c, cs1[c], cs1[c + 1]) by {
                if c < i {
                    assert(cs1[c] == cs[c] && cs1[c + 1] == cs[c + 1]);
                }
            }
            cs = cs1;
        }
        i += 1;
    }
    let ghost ub = u;
    let ghost vb = k.value;
    proof {
        assert(map_trace(g, st, cs));
        assert(map_valued(g, st, (us, vs), (ub, vb)));
    }
    // dumb down the kings on the easy difficulties
    let mut rng = new_rng();
    i = 0;
    while i < w
        invariant
            dims_ok(g.width as int, g.height as int),
            w == g.width,
            h == g.height,
            0 <= i <= w,
            k.pl == old(k).pl,
            k.strategy == old(k).strategy,
            v0 == old(k).value,
            forall|a: int, b: int| in_array(a, b) ==> 0 <= #[trigger] v0[a][b] <= KING_VALUE_MAX,
            forall|a: int, b: int| in_array(a, b) ==> 0 <= #[trigger] k.value[a][b],
            forall|a: int, b: int| in_array(a, b) && !in_grid(g, a, b) ==> #[trigger] k.value[a][b] == v0[a][b],
            forall|a: int, b: int| #[trigger] in_grid(g, a, b) && a >= i ==> k.value[a][b] <= 34,
            forall|a: int, b: int| #[trigger] in_grid(g, a, b) && a < i ==> k.value[a][b] <= eval_cap(dif),
            forall|a: int, b: int| in_array(a, b) && !(in_grid(g, a, b) && a < i) ==> #[trigger] k.value[a][b] == vb[a][b],
            forall|a: int, b: int|
                #[trigger] in_grid(g, a, b) && a < i ==> cut_value(dif, vb[a][b] as int, k.value[a][b] as int),
        decreases w - i,
    {
        let mut j: i32 = 0;
        while j < h
            invariant
                dims_ok(g.width as int, g.height as int),
                w == g.width,
                h == g.height,
                0 <= i < w,
                0 <= j <= h,
                k.pl == old(k).pl,
                k.strategy == old(k).strategy,
                v0 == old(k).value,
                forall|a: int, b: int| in_array(a, b) ==> 0 <= #[trigger] v0[a][b] <= KING_VALUE_MAX,
                forall|a: int, b: int| in_array(a, b) ==> 0 <= #[trigger] k.value[a][b],
                forall|a: int, b: int| in_array(a, b) && !in_grid(g, a, b) ==> #[trigger] k.value[a][b] == v0[a][b],
                forall|a: int, b: int| #[trigger] in_grid(g, a, b) && (a > i || (a == i && b >= j)) ==> k.value[a][b] <= 34,
                forall|a: int, b: int| #[trigger] in_grid(g, a, b) && (a < i || (a == i && b < j)) ==> k.value[a][b] <= eval_cap(dif),
                forall|a: int, b: int|
                    in_array(a, b) && !(in_grid(g, a, b) && (a < i || (a == i && b < j))) ==> #[trigger] k.value[a][b] == vb[a][b],
                forall|a: int, b: int|
                    #[trigger] in_grid(g, a, b) && (a < i || (a == i && b < j)) ==> cut_value(
                        dif,
                        vb[a][b] as int,
                        k.value[a][b] as int,
                    ),
            decreases h - j,
        {
            proof {
                assert(in_grid(g, i as int, j as int));
                assert(in_array(i as int, j as int));
            }
            let ghost vc = k.value;
            match dif {
                ConfigDif::Easiest => {
                    let mut x = k.value[i as usize][j as usize] / 4;
                    let r = gen_range(&mut rng, 0, 7);
                    x = x + r - 3;
                    k.value[i as usize][j as usize] = max_i32(0, x);
                    proof {
                        assert(k.value[i as int][j as int] == cut_shift(vb[i as int][j as int] as int, 4, r - 3));
                    }
                },
                ConfigDif::Easy => {
                    let mut x = k.value[i as usize][j as usize] / 2;
                    let r = gen_range(&mut rng, 0, 3);
                    x = x + r - 1;
                    k.value[i as usize][j as usize] = max_i32(0, x);
                    proof {
                        assert(k.value[i as int][j as int] == cut_shift(vb[i as int][j as int] as int, 2, r - 1));
                    }
                },
                _ => {},
            }
            proof {
                assert(vc[i as int][j as int] == vb[i as int][j as int]);
                assert(cut_value(dif, vb[i as int][j as int] as int, k.value[i as int][j as int] as int));
                assert forall|a: int, b: int|
                    #[trigger] in_grid(g, a, b) && (a < i || (a == i && b < j + 1)) implies cut_value(
                        dif,
                        vb[a][b] as int,
                        k.value[a][b] as int,
                    ) by {
                    if !(a == i && b == j) {
                        assert(in_array(a, b));
                        assert(k.value[a][b] == vc[a][b]);
                    }
                }
            }
            j += 1;
        }
        i += 1;
    }
    proof {
        assert(eval_start(g, v0, us, vs));
        assert forall|a: int, b: int| in_array(a, b) implies if in_grid(g, a, b) {
            cut_value(dif, vb[a][b] as int, #[trigger] k.value[a][b] as int)
        } else {
            k.value[a][b] == vb[a][b]
        } by {}
        assert(dumbed(g, dif, vb, k.value));
    }
}

// ---------------------------------------------------------------------------
// The valuation is deterministic
// ---------------------------------------------------------------------------

/// No influence is negative.
pub open spec fn nonneg(u: Layer) -> bool {
    forall|i: int, j: int| in_array(i, j) ==> 0 <= #[trigger] u[i][j]
}

proof fn lemma_spread_even_unique(
    g: &Grid,
    u0: Layer,
    v0: Layer,
    u1: Layer,
    v1: Layer,
    u2: Layer,
    v2: Layer,
    x: int,
    y: int,
    val: i32,
)
    requires
        nonneg(u0),
        spread_even(g, u0, v0, u1, v1, x, y, val),
        spread_even(g, u0, v0, u2, v2, x, y, val),
    ensures
        u1 == u2,
        v1 == v2,
        nonneg(u1),
{
    let vm1 = choose|vm: Layer| #[trigger] spread_post(g, u0, v0, u1, vm, x, y, val, 1) && filled(g, vm, v1, 0, false, x, y);
    let vm2 = choose|vm: Layer| #[trigger] spread_post(g, u0, v0, u2, vm, x, y, val, 1) && filled(g, vm, v2, 0, false, x, y);
    lemma_spread_unique(g, u0, v0, u1, vm1, u2, vm2, x, y, val, 1);
    lemma_filled_unique(g, vm1, v1, v2, 0, false, x, y);
    assert forall|i: int, j: int| in_array(i, j) implies 0 <= #[trigger] u1[i][j] by {
        assert(u0[i][j] <= u1[i][j]);
    }
}

proof fn lemma_mine_prefix(g: &Grid, i: int, j: int, val: i32, ms1: Seq<(Layer, Layer)>, ms2: Seq<(Layer, Layer)>, d: int)
    requires
        mine_trace(g, i, j, val, ms1),
        mine_trace(g, i, j, val, ms2),
        ms1[0] == ms2[0],
        nonneg(ms1[0].0),
        0 <= d <= DIRECTIONS,
    ensures
        ms1[d] == ms2[d],
        nonneg(ms1[d].0),
    decreases d,
{
    if d > 0 {
        lemma_mine_prefix(g, i, j, val, ms1, ms2, d - 1);
        let e = d - 1;
        assert(spread_even(g, ms1[e].0, ms1[e].1, ms1[e + 1].0, ms1[e + 1].1, i + dir_di(e), j + dir_dj(e), val));
        assert(spread_even(g, ms2[e].0, ms2[e].1, ms2[e + 1].0, ms2[e + 1].1, i + dir_di(e), j + dir_dj(e), val));
        lemma_spread_even_unique(
            g,
            ms1[e].0,
            ms1[e].1,
            ms1[d].0,
            ms1[d].1,
            ms2[d].0,
            ms2[d].1,
            i + dir_di(e),
            j + dir_dj(e),
            val,
        );
    }
}

proof fn lemma_tile_valued_unique(
    g: &Grid,
    st: Strategy,
    i: int,
    j: int,
    u0: Layer,
    v0: Layer,
    u1: Layer,
    v1: Layer,
    u2: Layer,
    v2: Layer,
)
    requires
        nonneg(u0),
        tile_valued(g, st, i, j, u0, v0, u1, v1),
        tile_valued(g, st, i, j, u0, v0, u2, v2),
    ensures
        u1 == u2,
        v1 == v2,
        nonneg(u1),
{
    let cl = g.tiles[i][j].cl;
    let vb1 = choose|vb: Layer|
        #[trigger] bumped(v0, vb, i, j, tile_bonus(cl, st)) && match cl {
            TileClass::Castle => spread_even(g, u0, vb, u1, v1, i, j, if st == Strategy::Noble { 32 } else { 16 }),
            TileClass::Town => spread_even(g, u0, vb, u1, v1, i, j, 8),
            TileClass::Village => spread_even(g, u0, vb, u1, v1, i, j, if st == Strategy::Noble { 2 } else { 4 }),
            TileClass::Mine => mine_spreads(g, u0, vb, u1, v1, i, j, if st == Strategy::Midas { 8 } else { 4 }),
            _ => u1 == u0 && v1 == vb,
        };
    let vb2 = choose|vb: Layer|
        #[trigger] bumped(v0, vb, i, j, tile_bonus(cl, st)) && match cl {
            TileClass::Castle => spread_even(g, u0, vb, u2, v2, i, j, if st == Strategy::Noble { 32 } else { 16 }),
            TileClass::Town => spread_even(g, u0, vb, u2, v2, i, j, 8),
            TileClass::Village => spread_even(g, u0, vb, u2, v2, i, j, if st == Strategy::Noble { 2 } else { 4 }),
            TileClass::Mine => mine_spreads(g, u0, vb, u2, v2, i, j, if st == Strategy::Midas { 8 } else { 4 }),
            _ => u2 == u0 && v2 == vb,
        };
    assert forall|a: int, c: int| in_array(a, c) implies #[trigger] vb1[a][c] == vb2[a][c] by {}
    lemma_layer_ext(vb1, vb2);
    match cl {
        TileClass::Castle => {
            lemma_spread_even_unique(g, u0, vb1, u1, v1, u2, v2, i, j, if st == Strategy::Noble { 32 } else { 16 });
        },
        TileClass::Town => {
            lemma_spread_even_unique(g, u0, vb1, u1, v1, u2, v2, i, j, 8);
        },
        TileClass::Village => {
            lemma_spread_even_unique(g, u0, vb1, u1, v1, u2, v2, i, j, if st == Strategy::Noble { 2 } else { 4 });
        },
        TileClass::Mine => {
            let val: i32 = if st == Strategy::Midas { 8 } else { 4 };
            let ms1 = choose|ms: Seq<(Layer, Layer)>|
                #[trigger] mine_trace(g, i, j, val, ms) && ms[0] == (u0, vb1) && ms[DIRECTIONS as int] == (u1, v1);
            let ms2 = choose|ms: Seq<(Layer, Layer)>|
                #[trigger] mine_trace(g, i, j, val, ms) && ms[0] == (u0, vb2) && ms[DIRECTIONS as int] == (u2, v2);
            lemma_mine_prefix(g, i, j, val, ms1, ms2, DIRECTIONS as int);
        },
        _ => {},
    }
}

proof fn lemma_col_prefix(g: &Grid, st: Strategy, i: int, ts1: Seq<(Layer, Layer)>, ts2: Seq<(Layer, Layer)>, j: int)
    requires
        col_trace(g, st, i, ts1),
        col_trace(g, st, i, ts2),
        ts1[0] == ts2[0],
        nonneg(ts1[0].0),
        0 <= j <= g.height,
    ensures
        ts1[j] == ts2[j],
        nonneg(ts1[j].0),
    decreases j,
{
    if j > 0 {
        lemma_col_prefix(g, st, i, ts1, ts2, j - 1);
        let e = j - 1;
        assert(tile_valued(g, st, i, e, ts1[e].0, ts1[e].1, ts1[e + 1].0, ts1[e + 1].1));
        assert(tile_valued(g, st, i, e, ts2[e].0, ts2[e].1, ts2[e + 1].0, ts2[e + 1].1));
        lemma_tile_valued_unique(g, st, i, e, ts1[e].0, ts1[e].1, ts1[j].0, ts1[j].1, ts2[j].0, ts2[j].1);
    }
}

proof fn lemma_col_valued_unique(g: &Grid, st: Strategy, i: int, s0: (Layer, Layer), s1: (Layer, Layer), s2: (Layer, Layer))
    requires
        nonneg(s0.0),
        g.height >= 0,
        col_valued(g, st, i, s0, s1),
        col_valued(g, st, i, s0, s2),
    ensures
        s1 == s2,
        nonneg(s1.0),
{
    let ts1 = choose|ts: Seq<(Layer, Layer)>| #[trigger] col_trace(g, st, i, ts) && ts[0] == s0 && ts[g.height as int] == s1;
    let ts2 = choose|ts: Seq<(Layer, Layer)>| #[trigger] col_trace(g, st, i, ts) && ts[0] == s0 && ts[g.height as int] == s2;
    lemma_col_prefix(g, st, i, ts1, ts2, g.height as int);
}

proof fn lemma_map_prefix(g: &Grid, st: Strategy, cs1: Seq<(Layer, Layer)>, cs2: Seq<(Layer, Layer)>, i: int)
    requires
        map_trace(g, st, cs1),
        map_trace(g, st, cs2),
        g.height >= 0,
        cs1[0] == cs2[0],
        nonneg(cs1[0].0),
        0 <= i <= g.width,
    ensures
        cs1[i] == cs2[i],
        nonneg(cs1[i].0),
    decreases i,
{
    if i > 0 {
        lemma_map_prefix(g, st, cs1, cs2, i - 1);
        let e = i - 1;
        assert(col_valued(g, st, e, cs1[e], cs1[e + 1]));
        assert(col_valued(g, st, e, cs2[e], cs2[e + 1]));
        lemma_col_valued_unique(g, st, e, cs1[e], cs1[i], cs2[i]);
    }
}

/// Valuing the map is deterministic: from the same start, the same layers come out.
pub proof fn lemma_map_valued_unique(g: &Grid, st: Strategy, s0: (Layer, Layer), s1: (Layer, Layer), s2: (Layer, Layer))
    requires
        dims_ok(g.width as int, g.height as int),
        nonneg(s0.0),
        map_valued(g, st, s0, s1),
        map_valued(g, st, s0, s2),
    ensures
        s1 == s2,
{
    let cs1 = choose|cs: Seq<(Layer, Layer)>| #[trigger] map_trace(g, st, cs) && cs[0] == s0 && cs[g.width as int] == s1;
    let cs2 = choose|cs: Seq<(Layer, Layer)>| #[trigger] map_trace(g, st, cs) && cs[0] == s0 && cs[g.width as int] == s2;
    lemma_map_prefix(g, st, cs1, cs2, g.width as int);
}

/// The difficulty only decides the final cut of a king's values: valued on
/// the same map, the values of king `k1` on difficulty `dif` are, in play,
/// those of king `kn` on the normal difficulty as `cut_value` makes them
/// (on the hard difficulties the same, on the easy ones halved or
/// quartered with a small random shift), and the same out of play.
pub proof fn lemma_difficulty_cut(k0: &King, kn: &King, k1: &King, g: &Grid, dif: ConfigDif)
    requires
        dims_ok(g.width as int, g.height as int),
        evaluated(k0, kn, g, ConfigDif::Normal),
        evaluated(k0, k1, g, dif),
    ensures
        forall|a: int, b: int|
            in_array(a, b) ==> if in_grid(g, a, b) {
                cut_value(dif, kn.value[a][b] as int, #[trigger] k1.value[a][b] as int)
            } else {
                k1.value[a][b] == kn.value[a][b]
            },
{
    let (un0, vn0, un1, vnb) = choose|u0: Layer, v0: Layer, u1: Layer, vb: Layer|
        eval_start(g, k0.value, u0, v0) && #[trigger] map_valued(g, k0.strategy, (u0, v0), (u1, vb)) && dumbed(
            g,
            ConfigDif::Normal,
            vb,
            kn.value,
        );
    let (u10, v10, u11, v1b) = choose|u0: Layer, v0: Layer, u1: Layer, vb: Layer|
        eval_start(g, k0.value, u0, v0) && #[trigger] map_valued(g, k0.strategy, (u0, v0), (u1, vb)) && dumbed(
            g,
            dif,
            vb,
            k1.value,
        );
    assert forall|a: int, b: int| in_array(a, b) implies #[trigger] un0[a][b] == u10[a][b] by {}
    assert forall|a: int, b: int| in_array(a, b) implies #[trigger] vn0[a][b] == v10[a][b] by {
        assert(un0[a][b] == 0 && u10[a][b] == 0);
    }
    lemma_layer_ext(un0, u10);
    lemma_layer_ext(vn0, v10);
    assert(nonneg(un0));
    lemma_map_valued_unique(g, k0.strategy, (un0, vn0), (un1, vnb), (u11, v1b));
    assert forall|a: int, b: int| in_array(a, b) implies if in_grid(g, a, b) {
        cut_value(dif, kn.value[a][b] as int, #[trigger] k1.value[a][b] as int)
    } else {
        k1.value[a][b] == kn.value[a][b]
    } by {
        assert(if in_grid(g, a, b) {
            cut_value(ConfigDif::Normal, vnb[a][b] as int, kn.value[a][b] as int)
        } else {
            kn.value[a][b] == vnb[a][b]
        });
        assert(if in_grid(g, a, b) {
            cut_value(dif, v1b[a][b] as int, k1.value[a][b] as int)
        } else {
            k1.value[a][b] == v1b[a][b]
        });
    }
}

// ---------------------------------------------------------------------------
// Placing flags
// ---------------------------------------------------------------------------

/// What a king's scoring of the positions decided, for the strategy at hand.
/// The scores are products with fractional powers of the army and are
/// computed by the caller in floating point (`add` for aggressive, persistent
/// and opportunist kings and the nobles' candidates; `low` for persistent
/// kings; `score`, the score truncated to an integer, for nobles; `best` for
/// one-greedy kings).
#[derive(Clone, Copy, Debug)]
pub struct FlagPlan {
    pub add: [[bool; MAX_HEIGHT]; MAX_WIDTH],
    pub low: [[bool; MAX_HEIGHT]; MAX_WIDTH],
    pub score: Layer,
    pub best: Option<Loc>,
}

/// Ghost count of the flag changes of a scan up to `(i, j)` bounds the calls.
pub open spec fn scan_calls(fg: &FlagGrid, i: int, j: int) -> bool {
    calls_at_most(fg, CALL_CAP + FLAG_POWER * (i * MAX_HEIGHT + j))
}

/// The flag at `(a, b)` after a scan that, on every passable position, first
/// removes the flag and then places one where `add` says.
pub open spec fn replaced_flag(g: &Grid, f0: &FlagGrid, add: [[bool; MAX_HEIGHT]; MAX_WIDTH], a: int, b: int) -> i32 {
    if passable(g, a, b) {
        if add[a][b] {
            FLAG_ON
        } else {
            FLAG_OFF
        }
    } else {
        f0.flag[a][b]
    }
}

/// Scans the map: removes every flag and places one where `add` says.
fn scan_remove_add(g: &Grid, fg: &mut FlagGrid, add: &[[bool; MAX_HEIGHT]; MAX_WIDTH])
    requires
        dims_ok(g.width as int, g.height as int),
        flag_grid_wf(old(fg)),
        calls_at_most(old(fg), CALL_CAP as int),
    ensures
        flags_consistent(g, old(fg)) ==> flags_consistent(g, final(fg)),
        flag_grid_wf(final(fg)),
        final(fg).width == old(fg).width,
        final(fg).height == old(fg).height,
        calls_at_most(final(fg), scan_cap()),
        forall|a: int, b: int| in_array(a, b) ==> #[trigger] final(fg).flag[a][b] == replaced_flag(g, old(fg), *add, a, b),
{
    let ghost f0 = *fg;
    let w = g.width;
    let h = g.height;
    let mut i: i32 = 0;
    while i < w
        invariant
            flags_consistent(g, &f0) ==> flags_consistent(g, fg),
            dims_ok(g.width as int, g.height as int),
            w == g.width,
            h == g.height,
            0 <= i <= w,
            flag_grid_wf(fg),
            fg.width == f0.width,
            fg.height == f0.height,
            scan_calls(fg, i as int, 0),
            forall|a: int, b: int|
                in_array(a, b) ==> #[trigger] fg.flag[a][b] == if a < i && b < h {
                    replaced_flag(g, &f0, *add, a, b)
                } else {
                    f0.flag[a][b]
                },
        decreases w - i,
    {
        let mut j: i32 = 0;
        while j < h
            invariant
                flags_consistent(g, &f0) ==> flags_consistent(g, fg),
                dims_ok(g.width as int, g.height as int),
                w == g.width,
                h == g.height,
                0 <= i < w,
                0 <= j <= h,
                flag_grid_wf(fg),
                fg.width == f0.width,
                fg.height == f0.height,
                scan_calls(fg, i as int, j as int),
                forall|a: int, b: int|
                    in_array(a, b) ==> #[trigger] fg.flag[a][b] == if (a < i && b < h) || (a == i && b < j) {
                        replaced_flag(g, &f0, *add, a, b)
                    } else {
                        f0.flag[a][b]
                    },
            decreases h - j,
        {
            let ghost cap = CALL_CAP + FLAG_POWER * (i * MAX_HEIGHT + j);
            proof {
                assert(in_array(i as int, j as int));
                assert(i * MAX_HEIGHT + j < MAX_WIDTH * MAX_HEIGHT);
            }
            if fg.flag[i as usize][j as usize] == FLAG_ON {
                remove_power_flag(g, fg, i, j, Ghost(cap));
            }
            if add[i as usize][j as usize] {
                add_power_flag(g, fg, i, j, Ghost(cap));
            } else {
                proof {
                    assert forall|a: int, b: int| in_array(a, b) implies 0 <= #[trigger] fg.call[a][b] <= cap + FLAG_POWER by {}
                }
            }
            proof {
                assert(cap + FLAG_POWER == CALL_CAP + FLAG_POWER * (i * MAX_HEIGHT + j + 1));
            }
            j += 1;
        }
        proof {
            assert(CALL_CAP + FLAG_POWER * (i * MAX_HEIGHT + h) <= CALL_CAP + FLAG_POWER * ((i + 1) * MAX_HEIGHT + 0));
            assert forall|a: int, b: int| in_array(a, b) implies 0 <= #[trigger] fg.call[a][b] <= CALL_CAP + FLAG_POWER * ((i + 1) * MAX_HEIGHT + 0) by {}
        }
        i += 1;
    }
    proof {
        assert(CALL_CAP + FLAG_POWER * (w * MAX_HEIGHT + 0) <= scan_cap());
        assert forall|a: int, b: int| in_array(a, b) implies #[trigger] fg.flag[a][b] == replaced_flag(g, &f0, *add, a, b) by {
            if !(a < w && b < h) {
                assert(!passable(g, a, b));
            }
        }
    }
}

/// Aggressive greedy king: removes all its flags and flags every position that `plan.add` marks.
fn action_aggr_greedy(k: &King, g: &Grid, fg: &mut FlagGrid, plan: &FlagPlan)
    requires
        dims_ok(g.width as int, g.height as int),
        flag_grid_wf(old(fg)),
        calls_at_most(old(fg), CALL_CAP as int),
    ensures
        flags_consistent(g, old(fg)) ==> flags_consistent(g, final(fg)),
        flag_grid_wf(final(fg)),
        final(fg).width == old(fg).width,
        final(fg).height == old(fg).height,
        calls_at_most(final(fg), scan_cap()),
        forall|a: int, b: int| in_array(a, b) ==> #[trigger] final(fg).flag[a][b] == replaced_flag(g, old(fg), plan.add, a, b),
{
    scan_remove_add(g, fg, &plan.add);
}

/// Opportunist king: removes all its flags and flags every position that
/// `plan.add` marks (enemies outnumber its army and the score is high).
fn action_opportunist(k: &King, g: &Grid, fg: &mut FlagGrid, plan: &FlagPlan)
    requires
        dims_ok(g.width as int, g.height as int),
        flag_grid_wf(old(fg)),
        calls_at_most(old(fg), CALL_CAP as int),
    ensures
        flags_consistent(g, old(fg)) ==> flags_consistent(g, final(fg)),
        flag_grid_wf(final(fg)),
        final(fg).width == old(fg).width,
        final(fg).height == old(fg).height,
        calls_at_most(final(fg), scan_cap()),
        forall|a: int, b: int| in_array(a, b) ==> #[trigger] final(fg).flag[a][b] == replaced_flag(g, old(fg), plan.add, a, b),
{
    scan_remove_add(g, fg, &plan.add);
}

/// The flag at `(a, b)` after the persistent king's scan: an existing flag
/// goes where `low` says, a new one comes where `add` says.
pub open spec fn persistent_flag(g: &Grid, f0: &FlagGrid, plan: &FlagPlan, a: int, b: int) -> i32 {
    if passable(g, a, b) {
        if f0.flag[a][b] == FLAG_ON {
            if plan.low[a][b] {
                FLAG_OFF
            } else {
                FLAG_ON
            }
        } else if plan.add[a][b] {
            FLAG_ON
        } else {
            FLAG_OFF
        }
    } else {
        f0.flag[a][b]
    }
}

/// Persistent greedy king: keeps its flags unless `plan.low` marks them, and
/// adds flags where `plan.add` marks a position without one.
fn action_persistent_greedy(k: &King, g: &Grid, fg: &mut FlagGrid, plan: &FlagPlan)
    requires
        dims_ok(g.width as int, g.height as int),
        flag_grid_wf(old(fg)),
        calls_at_most(old(fg), CALL_CAP as int),
    ensures
        flags_consistent(g, old(fg)) ==> flags_consistent(g, final(fg)),
        flag_grid_wf(final(fg)),
        final(fg).width == old(fg).width,
        final(fg).height == old(fg).height,
        calls_at_most(final(fg), scan_cap()),
        forall|a: int, b: int| in_array(a, b) ==> #[trigger] final(fg).flag[a][b] == persistent_flag(g, old(fg), plan, a, b),
{
    let ghost f0 = *fg;
    let w = g.width;
    let h = g.height;
    let mut i: i32 = 0;
    while i < w
        invariant
            flags_consistent(g, &f0) ==> flags_consistent(g, fg),
            dims_ok(g.width as int, g.height as int),
            w == g.width,
            h == g.height,
            0 <= i <= w,
            flag_grid_wf(fg),
            fg.width == f0.width,
            fg.height == f0.height,
            flag_grid_wf(&f0),
            scan_calls(fg, i as int, 0),
            forall|a: int, b: int|
                in_array(a, b) ==> #[trigger] fg.flag[a][b] == if a < i && b < h {
                    persistent_flag(g, &f0, plan, a, b)
                } else {
                    f0.flag[a][b]
                },
        decreases w - i,
    {
        let mut j: i32 = 0;
        while j < h
            invariant
                flags_consistent(g, &f0) ==> flags_consistent(g, fg),
                dims_ok(g.width as int, g.height as int),
                w == g.width,
                h == g.height,
                0 <= i < w,
                0 <= j <= h,
                flag_grid_wf(fg),
                fg.width == f0.width,
                fg.height == f0.height,
                flag_grid_wf(&f0),
                scan_calls(fg, i as int, j as int),
                forall|a: int, b: int|
                    in_array(a, b) ==> #[trigger] fg.flag[a][b] == if (a < i && b < h) || (a == i && b < j) {
                        persistent_flag(g, &f0, plan, a, b)
                    } else {
                        f0.flag[a][b]
                    },
            decreases h - j,
        {
            let ghost cap = CALL_CAP + FLAG_POWER * (i * MAX_HEIGHT + j);
            proof {
                assert(in_array(i as int, j as int));
                assert(i * MAX_HEIGHT + j < MAX_WIDTH * MAX_HEIGHT);
            }
            if fg.flag[i as usize][j as usize] == FLAG_ON {
                if plan.low[i as usize][j as usize] {
                    remove_power_flag(g, fg, i, j, Ghost(cap));
                }
            } else {
                if plan.add[i as usize][j as usize] {
                    add_power_flag(g, fg, i, j, Ghost(cap));
                }
            }
            proof {
                assert forall|a: int, b: int| in_array(a, b) implies 0 <= #[trigger] fg.call[a][b] <= cap + FLAG_POWER by {}
                assert(cap + FLAG_POWER == CALL_CAP + FLAG_POWER * (i * MAX_HEIGHT + j + 1));
            }
            j += 1;
        }
        proof {
            assert(CALL_CAP + FLAG_POWER * (i * MAX_HEIGHT + h) <= CALL_CAP + FLAG_POWER * ((i + 1) * MAX_HEIGHT + 0));
            assert forall|a: int, b: int| in_array(a, b) implies 0 <= #[trigger] fg.call[a][b] <= CALL_CAP + FLAG_POWER * ((i + 1) * MAX_HEIGHT + 0) by {}
        }
        i += 1;
    }
    proof {
        assert(CALL_CAP + FLAG_POWER * (w * MAX_HEIGHT + 0) <= scan_cap());
        assert forall|a: int, b: int| in_array(a, b) implies #[trigger] fg.flag[a][b] == persistent_flag(g, &f0, plan, a, b) by {
            if !(a < w && b < h) {
                assert(!passable(g, a, b));
            }
        }
    }
}

/// Removes every flag of the passable positions; other flags stay.
fn scan_remove_all(g: &Grid, fg: &mut FlagGrid)
    requires
        dims_ok(g.width as int, g.height as int),
        flag_grid_wf(old(fg)),
        calls_at_most(old(fg), CALL_CAP as int),
    ensures
        flags_consistent(g, old(fg)) ==> flags_consistent(g, final(fg)),
        flag_grid_wf(final(fg)),
        final(fg).width == old(fg).width,
        final(fg).height == old(fg).height,
        calls_at_most(final(fg), CALL_CAP as int),
        forall|a: int, b: int| in_array(a, b) ==> #[trigger] final(fg).flag[a][b] == if passable(g, a, b) {
            FLAG_OFF
        } else {
            old(fg).flag[a][b]
        },
{
    let ghost f0 = *fg;
    let w = g.width;
    let h = g.height;
    let mut i: i32 = 0;
    while i < w
        invariant
            flags_consistent(g, &f0) ==> flags_consistent(g, fg),
            dims_ok(g.width as int, g.height as int),
            w == g.width,
            h == g.height,
            0 <= i <= w,
            flag_grid_wf(fg),
            fg.width == f0.width,
            fg.height == f0.height,
            calls_at_most(fg, CALL_CAP as int),
            forall|a: int, b: int|
                in_array(a, b) ==> #[trigger] fg.flag[a][b] == if a < i && b < h && passable(g, a, b) {
                    FLAG_OFF
                } else {
                    f0.flag[a][b]
                },
        decreases w - i,
    {
        let mut j: i32 = 0;
        while j < h
            invariant
                flags_consistent(g, &f0) ==> flags_consistent(g, fg),
                dims_ok(g.width as int, g.height as int),
                w == g.width,
                h == g.height,
                0 <= i < w,
                0 <= j <= h,
                flag_grid_wf(fg),
                fg.width == f0.width,
                fg.height == f0.height,
                calls_at_most(fg, CALL_CAP as int),
                forall|a: int, b: int|
                    in_array(a, b) ==> #[trigger] fg.flag[a][b] == if ((a < i && b < h) || (a == i && b < j)) && passable(g, a, b) {
                        FLAG_OFF
                    } else {
                        f0.flag[a][b]
                    },
            decreases h - j,
        {
            proof {
                assert(in_array(i as int, j as int));
            }
            if fg.flag[i as usize][j as usize] == FLAG_ON {
                remove_power_flag(g, fg, i, j, Ghost(CALL_CAP as int));
            }
            j += 1;
        }
        i += 1;
    }
    proof {
        assert forall|a: int, b: int| in_array(a, b) implies #[trigger] fg.flag[a][b] == if passable(g, a, b) {
            FLAG_OFF
        } else {
            f0.flag[a][b]
        } by {
            if !(a < w && b < h) {
                assert(!passable(g, a, b));
            }
        }
    }
}

/// One-greedy king: removes all its flags and flags the single position
/// `plan.best`, when there is one.
fn action_one_greedy(k: &King, g: &Grid, fg: &mut FlagGrid, plan: &FlagPlan)
    requires
        dims_ok(g.width as int, g.height as int),
        flag_grid_wf(old(fg)),
        calls_at_most(old(fg), CALL_CAP as int),
    ensures
        flags_consistent(g, old(fg)) ==> flags_consistent(g, final(fg)),
        flag_grid_wf(final(fg)),
        final(fg).width == old(fg).width,
        final(fg).height == old(fg).height,
        calls_at_most(final(fg), scan_cap()),
        forall|a: int, b: int| in_array(a, b) ==> #[trigger] final(fg).flag[a][b] == if passable(g, a, b) {
            if plan.best matches Some(l) && l.i == a && l.j == b {
                FLAG_ON
            } else {
                FLAG_OFF
            }
        } else {
            old(fg).flag[a][b]
        },
{
    scan_remove_all(g, fg);
    match plan.best {
        Some(l) => {
            add_power_flag(g, fg, l.i, l.j, Ghost(CALL_CAP as int));
        },
        None => {},
    }
}

/// Number of positions that a noble king flags at most.
pub const LOCVAL_LEN: usize = 5;

/// `(a, b)` is a noble candidate: in play, marked by `plan.add`, with a score not below 0.
pub open spec fn noble_cand(g: &Grid, plan: &FlagPlan, a: int, b: int) -> bool {
    in_grid(g, a, b) && plan.add[a][b] && plan.score[a][b] >= 0
}

/// `p` ranks before `q`: a higher score, or the same score and earlier in the scan.
pub open spec fn ahead(plan: &FlagPlan, p: (int, int), q: (int, int)) -> bool {
    plan.score[p.0][p.1] > plan.score[q.0][q.1] || (plan.score[p.0][p.1] == plan.score[q.0][q.1] && (p.0
        < q.0 || (p.0 == q.0 && p.1 < q.1)))
}

/// `(a, b)` comes before `(i, j)` in the scan.
pub open spec fn scanned(a: int, b: int, i: int, j: int) -> bool {
    a < i || (a == i && b < j)
}

/// `l` lists, best first, the (at most `LOCVAL_LEN`) best candidates among
/// those that the scan met before `(i, j)`.
pub open spec fn top_list(g: &Grid, plan: &FlagPlan, l: Seq<(int, int)>, i: int, j: int) -> bool {
    &&& l.len() <= LOCVAL_LEN
    &&& forall|k: int| 0 <= k < l.len() ==> noble_cand(g, plan, (#[trigger] l[k]).0, l[k].1) && scanned(l[k].0, l[k].1, i, j)
    &&& forall|k1: int, k2: int| 0 <= k1 < k2 < l.len() ==> #[trigger] ahead(plan, l[k1], l[k2])
    &&& forall|a: int, b: int|
        #[trigger] noble_cand(g, plan, a, b) && scanned(a, b, i, j) ==> l.contains((a, b)) || (l.len()
            == LOCVAL_LEN && forall|k: int| 0 <= k < l.len() ==> #[trigger] ahead(plan, l[k], (a, b)))
}

/// The slots hold the list `l`: its positions and scores, then -1 scores.
pub open spec fn slots_hold(plan: &FlagPlan, loc: [Loc; LOCVAL_LEN], val: [i32; LOCVAL_LEN], l: Seq<(int, int)>) -> bool {
    &&& l.len() <= LOCVAL_LEN
    &&& forall|k: int|
        #![trigger loc[k]]
        #![trigger val[k]]
        0 <= k < LOCVAL_LEN ==> if k < l.len() {
            loc[k].i == l[k].0 && loc[k].j == l[k].1 && val[k] == plan.score[l[k].0][l[k].1]
        } else {
            val[k] == -1
        }
}

proof fn lemma_top_insert(
    g: &Grid,
    plan: &FlagPlan,
    l: Seq<(int, int)>,
    i: int,
    j: int,
    idx: int,
)
    requires
        dims_ok(g.width as int, g.height as int),
        in_grid(g, i, j),
        top_list(g, plan, l, i, j),
        noble_cand(g, plan, i, j),
        0 <= idx <= l.len(),
        idx < LOCVAL_LEN,
        forall|k: int| 0 <= k < idx ==> plan.score[(#[trigger] l[k]).0][l[k].1] >= plan.score[i][j],
        idx < l.len() ==> plan.score[l[idx].0][l[idx].1] < plan.score[i][j],
    ensures
        ({
            let l2 = l.take(idx) + seq![(i, j)] + l.skip(idx);
            let l3 = if l2.len() > LOCVAL_LEN { l2.take(LOCVAL_LEN as int) } else { l2 };
            top_list(g, plan, l3, i, j + 1)
        }),
{
    let c = (i, j);
    let l2 = l.take(idx) + seq![c] + l.skip(idx);
    let l3 = if l2.len() > LOCVAL_LEN { l2.take(LOCVAL_LEN as int) } else { l2 };
    assert forall|k: int| 0 <= k < l2.len() implies #[trigger] l2[k] == if k < idx { l[k] } else if k == idx { c } else { l[k - 1] } by {}
    // scores of the old list do not increase along it
    assert forall|k1: int, k2: int| 0 <= k1 <= k2 < l.len() implies plan.score[(#[trigger] l[k1]).0][l[k1].1] >= plan.score[(#[trigger] l[k2]).0][l[k2].1] by {
        if k1 < k2 {
            assert(ahead(plan, l[k1], l[k2]));
        }
    }
    assert forall|k: int| 0 <= k < l3.len() implies noble_cand(g, plan, (#[trigger] l3[k]).0, l3[k].1) && scanned(l3[k].0, l3[k].1, i, j + 1) by {
        assert(l3[k] == l2[k]);
        if k != idx {
            let kk = if k < idx { k } else { k - 1 };
            assert(noble_cand(g, plan, l[kk].0, l[kk].1) && scanned(l[kk].0, l[kk].1, i, j));
        }
    }
    assert forall|k1: int, k2: int| 0 <= k1 < k2 < l3.len() implies #[trigger] ahead(plan, l3[k1], l3[k2]) by {
        assert(l3[k1] == l2[k1]);
        assert(l3[k2] == l2[k2]);
        if k1 < idx && k2 < idx {
            assert(ahead(plan, l[k1], l[k2]));
        } else if k1 < idx && k2 == idx {
            assert(plan.score[l[k1].0][l[k1].1] >= plan.score[i][j]);
            assert(scanned(l[k1].0, l[k1].1, i, j));
        } else if k1 < idx {
            assert(ahead(plan, l[k1], l[k2 - 1]));
        } else if k1 == idx {
            assert(plan.score[l[idx].0][l[idx].1] >= plan.score[l[k2 - 1].0][l[k2 - 1].1]);
        } else {
            assert(ahead(plan, l[k1 - 1], l[k2 - 1]));
        }
    }
    assert forall|a: int, b: int|
        #[trigger] noble_cand(g, plan, a, b) && scanned(a, b, i, j + 1) implies l3.contains((a, b)) || (l3.len()
            == LOCVAL_LEN && forall|k: int| 0 <= k < l3.len() ==> #[trigger] ahead(plan, l3[k], (a, b))) by {
        if (a, b) == c {
            assert(l3[idx] == c);
        } else {
            assert(scanned(a, b, i, j));
            if l.contains((a, b)) {
                let kk = choose|kk: int| 0 <= kk < l.len() && l[kk] == (a, b);
                let k = if kk < idx { kk } else { kk + 1 };
                if k < l3.len() {
                    assert(l3[k] == (a, b));
                } else {
                    // dropped off the end: the list was full
                    assert(l.len() == LOCVAL_LEN);
                    assert(kk == LOCVAL_LEN - 1);
                    assert forall|k2: int| 0 <= k2 < l3.len() implies #[trigger] ahead(plan, l3[k2], (a, b)) by {
                        assert(l3[k2] == l2[k2]);
                        if k2 < idx {
                            assert(ahead(plan, l[k2], l[kk]));
                        } else if k2 == idx {
                            assert(plan.score[l[idx].0][l[idx].1] >= plan.score[l[kk].0][l[kk].1]);
                        } else {
                            assert(ahead(plan, l[k2 - 1], l[kk]));
                        }
                    }
                }
            } else {
                assert(l.len() == LOCVAL_LEN);
                assert(forall|k: int| 0 <= k < l.len() ==> #[trigger] ahead(plan, l[k], (a, b)));
                assert forall|k2: int| 0 <= k2 < l3.len() implies #[trigger] ahead(plan, l3[k2], (a, b)) by {
                    assert(l3[k2] == l2[k2]);
                    if k2 < idx {
                        assert(ahead(plan, l[k2], (a, b)));
                    } else if k2 == idx {
                        assert(ahead(plan, l[LOCVAL_LEN - 1], (a, b)));
                        assert(plan.score[l[idx].0][l[idx].1] >= plan.score[l[LOCVAL_LEN - 1].0][l[LOCVAL_LEN - 1].1]);
                    } else {
                        assert(ahead(plan, l[k2 - 1], (a, b)));
                    }
                }
            }
        }
    }
}

proof fn lemma_top_skip(g: &Grid, plan: &FlagPlan, l: Seq<(int, int)>, i: int, j: int)
    requires
        top_list(g, plan, l, i, j),
        noble_cand(g, plan, i, j) ==> l.len() == LOCVAL_LEN && forall|k: int|
            0 <= k < l.len() ==> plan.score[(#[trigger] l[k]).0][l[k].1] >= plan.score[i][j],
    ensures
        top_list(g, plan, l, i, j + 1),
{
    assert forall|k: int| 0 <= k < l.len() implies noble_cand(g, plan, (#[trigger] l[k]).0, l[k].1) && scanned(l[k].0, l[k].1, i, j + 1) by {}
    assert forall|a: int, b: int|
        #[trigger] noble_cand(g, plan, a, b) && scanned(a, b, i, j + 1) implies l.contains((a, b)) || (l.len()
            == LOCVAL_LEN && forall|k: int| 0 <= k < l.len() ==> #[trigger] ahead(plan, l[k], (a, b))) by {
        if a == i && b == j {
            assert forall|k: int| 0 <= k < l.len() implies #[trigger] ahead(plan, l[k], (a, b)) by {
                assert(plan.score[l[k].0][l[k].1] >= plan.score[i][j]);
                assert(scanned(l[k].0, l[k].1, i, j));
            }
        } else {
            assert(scanned(a, b, i, j));
        }
    }
}

/// Inserts candidate `(i, j)` with score `vx` into the slots, which keep the
/// best candidates first.
fn noble_insert(
    g: &Grid,
    plan: &FlagPlan,
    loc: &mut [Loc; LOCVAL_LEN],
    val: &mut [i32; LOCVAL_LEN],
    i: i32,
    j: i32,
    Ghost(l): Ghost<Seq<(int, int)>>,
) -> (l2: Ghost<Seq<(int, int)>>)
    requires
        dims_ok(g.width as int, g.height as int),
        in_grid(g, i as int, j as int),
        plan.add[i as int][j as int],
        top_list(g, plan, l, i as int, j as int),
        slots_hold(plan, *old(loc), *old(val), l),
    ensures
        top_list(g, plan, l2@, i as int, j + 1),
        slots_hold(plan, *final(loc), *final(val), l2@),
{
    let vx = plan.score[i as usize][j as usize];
    let mut idx: usize = 0;
    while idx < LOCVAL_LEN && val[idx] >= vx
        invariant
            0 <= idx <= LOCVAL_LEN,
            slots_hold(plan, *loc, *val, l),
            forall|kk: int| 0 <= kk < idx ==> #[trigger] val[kk] >= vx,
        decreases LOCVAL_LEN - idx,
    {
        idx += 1;
    }
    proof {
        assert forall|k: int| 0 <= k < l.len() implies #[trigger] noble_cand(g, plan, l[k].0, l[k].1) by {}
        assert forall|k: int| 0 <= k < l.len() implies #[trigger] val[k] == plan.score[l[k].0][l[k].1] by {
            assert((loc[k]).i == l[k].0);
        }
    }
    if idx >= LOCVAL_LEN {
        proof {
            if noble_cand(g, plan, i as int, j as int) {
                if l.len() < LOCVAL_LEN {
                    assert(val[l.len() as int] == -1);
                    assert(val[l.len() as int] >= vx);
                }
                assert forall|k: int| 0 <= k < l.len() implies plan.score[(#[trigger] l[k]).0][l[k].1] >= plan.score[i as int][j as int] by {
                    assert(val[k] >= vx);
                }
            }
            lemma_top_skip(g, plan, l, i as int, j as int);
        }
        return Ghost(l);
    }
    proof {
        assert(val[idx as int] < vx);
        if (idx as int) >= l.len() {
            assert(val[idx as int] == -1);
        }
        if vx < 0 {
            assert((idx as int) < l.len());
            assert(val[idx as int] == plan.score[l[idx as int].0][l[idx as int].1]);
            assert(false);
        }
        assert(noble_cand(g, plan, i as int, j as int));
        assert((idx as int) <= l.len()) by {
            if (idx as int) > l.len() {
                assert(val[l.len() as int] >= vx);
                assert(val[l.len() as int] == -1);
            }
        }
        assert forall|k: int| 0 <= k < idx implies plan.score[(#[trigger] l[k]).0][l[k].1] >= plan.score[i as int][j as int] by {
            assert(val[k] >= vx);
        }
        lemma_top_insert(g, plan, l, i as int, j as int, idx as int);
    }
    let ghost loc0 = *loc;
    let ghost val0 = *val;
    let mut m: usize = LOCVAL_LEN - 1;
    while m > idx
        invariant
            idx < LOCVAL_LEN,
            idx <= m < LOCVAL_LEN,
            forall|kk: int|
                0 <= kk < LOCVAL_LEN ==> #[trigger] loc[kk] == if kk > m { loc0[kk - 1] } else { loc0[kk] },
            forall|kk: int|
                0 <= kk < LOCVAL_LEN ==> #[trigger] val[kk] == if kk > m { val0[kk - 1] } else { val0[kk] },
        decreases m,
    {
        loc[m] = loc[m - 1];
        val[m] = val[m - 1];
        m -= 1;
    }
    loc[idx] = Loc { i: i, j: j };
    val[idx] = vx;
    let ghost l2 = l.take(idx as int) + seq![(i as int, j as int)] + l.skip(idx as int);
    let ghost l3 = if l2.len() > LOCVAL_LEN { l2.take(LOCVAL_LEN as int) } else { l2 };
    proof {
        assert forall|k: int| 0 <= k < l2.len() implies #[trigger] l2[k] == if k < idx { l[k] } else if k == idx { (i as int, j as int) } else { l[k - 1] } by {}
        assert forall|kk: int|
            0 <= kk < LOCVAL_LEN implies (if kk < l3.len() {
                (#[trigger] loc[kk]).i == l3[kk].0 && loc[kk].j == l3[kk].1 && val[kk] == plan.score[l3[kk].0][l3[kk].1]
            } else {
                val[kk] == -1
            }) by {
            if kk < l3.len() {
                assert(l3[kk] == l2[kk]);
                if kk < idx {
                    assert(loc0[kk].i == l[kk].0 && loc0[kk].j == l[kk].1);
                } else if kk > idx {
                    assert(loc0[kk - 1].i == l[kk - 1].0 && loc0[kk - 1].j == l[kk - 1].1);
                }
            } else {
                assert(kk > idx);
                assert(val0[kk - 1] == -1);
            }
        }
    }
    Ghost(l3)
}

/// Noble king: removes all its flags and flags the (at most five) best
/// candidates of `plan` (ranked by score, then by scan order) that have a
/// positive score.
fn action_noble(k: &King, g: &Grid, fg: &mut FlagGrid, plan: &FlagPlan)
    requires
        dims_ok(g.width as int, g.height as int),
        flag_grid_wf(old(fg)),
        calls_at_most(old(fg), CALL_CAP as int),
    ensures
        flags_consistent(g, old(fg)) ==> flags_consistent(g, final(fg)),
        flag_grid_wf(final(fg)),
        final(fg).width == old(fg).width,
        final(fg).height == old(fg).height,
        calls_at_most(final(fg), scan_cap()),
        exists|l: Seq<(int, int)>|
            #[trigger] top_list(g, plan, l, g.width as int, 0) && forall|a: int, b: int|
                in_array(a, b) ==> #[trigger] final(fg).flag[a][b] == if passable(g, a, b) {
                    if l.contains((a, b)) && plan.score[a][b] > 0 {
                        FLAG_ON
                    } else {
                        FLAG_OFF
                    }
                } else {
                    old(fg).flag[a][b]
                },
{
    let mut loc: [Loc; LOCVAL_LEN] = [Loc { i: -1, j: -1 }; LOCVAL_LEN];
    let mut val: [i32; LOCVAL_LEN] = [-1i32; LOCVAL_LEN];
    let ghost mut l: Seq<(int, int)> = Seq::empty();
    let ghost f0 = *fg;
    let w = g.width;
    let h = g.height;
    proof {
        assert forall|kk: int| 0 <= kk < LOCVAL_LEN implies (if kk < l.len() {
            (#[trigger] loc[kk]).i == l[kk].0 && loc[kk].j == l[kk].1 && val[kk] == plan.score[l[kk].0][l[kk].1]
        } else {
            val[kk] == -1
        }) by {}
    }
    let mut i: i32 = 0;
    while i < w
        invariant
            flags_consistent(g, &f0) ==> flags_consistent(g, fg),
            dims_ok(g.width as int, g.height as int),
            w == g.width,
            h == g.height,
            0 <= i <= w,
            flag_grid_wf(fg),
            fg.width == f0.width,
            fg.height == f0.height,
            calls_at_most(fg, CALL_CAP as int),
            forall|a: int, b: int|
                in_array(a, b) ==> #[trigger] fg.flag[a][b] == if a < i && b < h && passable(g, a, b) {
                    FLAG_OFF
                } else {
                    f0.flag[a][b]
                },
            top_list(g, plan, l, i as int, 0),
            slots_hold(plan, loc, val, l),
        decreases w - i,
    {
        let mut j: i32 = 0;
        while j < h
            invariant
                flags_consistent(g, &f0) ==> flags_consistent(g, fg),
                dims_ok(g.width as int, g.height as int),
                w == g.width,
                h == g.height,
                0 <= i < w,
                0 <= j <= h,
                flag_grid_wf(fg),
                fg.width == f0.width,
                fg.height == f0.height,
                calls_at_most(fg, CALL_CAP as int),
                forall|a: int, b: int|
                    in_array(a, b) ==> #[trigger] fg.flag[a][b] == if ((a < i && b < h) || (a == i && b < j)) && passable(g, a, b) {
                        FLAG_OFF
                    } else {
                        f0.flag[a][b]
                    },
                top_list(g, plan, l, i as int, j as int),
                slots_hold(plan, loc, val, l),
            decreases h - j,
        {
            proof {
                assert(in_array(i as int, j as int));
            }
            if fg.flag[i as usize][j as usize] == FLAG_ON {
                remove_power_flag(g, fg, i, j, Ghost(CALL_CAP as int));
            }
            if plan.add[i as usize][j as usize] {
                let Ghost(l2) = noble_insert(g, plan, &mut loc, &mut val, i, j, Ghost(l));
                proof {
                    l = l2;
                }
            } else {
                proof {
                    lemma_top_skip(g, plan, l, i as int, j as int);
                }
            }
            j += 1;
        }
        proof {
            assert forall|k: int| 0 <= k < l.len() implies noble_cand(g, plan, (#[trigger] l[k]).0, l[k].1) && scanned(l[k].0, l[k].1, i + 1, 0) by {}
            assert forall|a: int, b: int|
                #[trigger] noble_cand(g, plan, a, b) && scanned(a, b, i + 1, 0) implies l.contains((a, b)) || (l.len()
                    == LOCVAL_LEN && forall|k: int| 0 <= k < l.len() ==> #[trigger] ahead(plan, l[k], (a, b))) by {
                assert(scanned(a, b, i as int, h as int));
            }
        }
        i += 1;
    }
    proof {
        assert forall|a: int, b: int| in_array(a, b) implies #[trigger] fg.flag[a][b] == if passable(g, a, b) {
            FLAG_OFF
        } else {
            f0.flag[a][b]
        } by {
            if !(a < w && b < h) {
                assert(!passable(g, a, b));
            }
        }
    }
    let ghost fs = *fg;
    for kk in 0..LOCVAL_LEN
        invariant
            flags_consistent(g, &f0) ==> flags_consistent(g, fg),
            dims_ok(g.width as int, g.height as int),
            flag_grid_wf(fg),
            fg.width == f0.width,
            fg.height == f0.height,
            calls_at_most(fg, CALL_CAP + FLAG_POWER * kk),
            slots_hold(plan, loc, val, l),
            top_list(g, plan, l, w as int, 0),
            w == g.width,
            forall|a: int, b: int| in_array(a, b) ==> #[trigger] fs.flag[a][b] == if passable(g, a, b) {
                FLAG_OFF
            } else {
                f0.flag[a][b]
            },
            forall|a: int, b: int|
                in_array(a, b) ==> #[trigger] fg.flag[a][b] == if passable(g, a, b) && exists|k: int|
                    0 <= k < kk && k < l.len() && l[k] == (a, b) && plan.score[a][b] > 0 {
                    FLAG_ON
                } else {
                    fs.flag[a][b]
                },
    {
        if val[kk] > 0 {
            add_power_flag(g, fg, loc[kk].i, loc[kk].j, Ghost(CALL_CAP + FLAG_POWER * kk));
            proof {
                assert((kk as int) < l.len());
                assert(loc[kk as int].i == l[kk as int].0 && loc[kk as int].j == l[kk as int].1);
                assert(val[kk as int] == plan.score[l[kk as int].0][l[kk as int].1]);
            }
        } else {
            proof {
                if (kk as int) < l.len() {
                    assert(val[kk as int] == plan.score[l[kk as int].0][l[kk as int].1]);
                    assert(loc[kk as int].i == l[kk as int].0 && loc[kk as int].j == l[kk as int].1);
                }
                assert forall|a: int, b: int| in_array(a, b) implies 0 <= #[trigger] fg.call[a][b] <= CALL_CAP + FLAG_POWER * (kk + 1) by {}
            }
        }
    }
    proof {
        assert(CALL_CAP + FLAG_POWER * LOCVAL_LEN <= scan_cap());
        assert forall|a: int, b: int| in_array(a, b) implies 0 <= #[trigger] fg.call[a][b] <= scan_cap() by {}
        assert forall|a: int, b: int| in_array(a, b) implies #[trigger] fg.flag[a][b] == if passable(g, a, b) {
            if l.contains((a, b)) && plan.score[a][b] > 0 {
                FLAG_ON
            } else {
                FLAG_OFF
            }
        } else {
            f0.flag[a][b]
        } by {
            if passable(g, a, b) && l.contains((a, b)) && plan.score[a][b] > 0 {
                let k = choose|k: int| 0 <= k < l.len() && l[k] == (a, b);
                assert(k < LOCVAL_LEN);
            }
        }
    }
}

/// The flags of `f1` are those that king `k` leaves after acting on `f0` with `plan`.
pub open spec fn flags_placed(k: &King, g: &Grid, f0: &FlagGrid, f1: &FlagGrid, plan: &FlagPlan) -> bool {
    match k.strategy {
        Strategy::AggrGreedy | Strategy::Opportunist => forall|a: int, b: int|
            in_array(a, b) ==> #[trigger] f1.flag[a][b] == replaced_flag(g, f0, plan.add, a, b),
        Strategy::PersistentGreedy => forall|a: int, b: int|
            in_array(a, b) ==> #[trigger] f1.flag[a][b] == persistent_flag(g, f0, plan, a, b),
        Strategy::OneGreedy => forall|a: int, b: int|
            in_array(a, b) ==> #[trigger] f1.flag[a][b] == if passable(g, a, b) {
                if plan.best matches Some(l) && l.i == a && l.j == b {
                    FLAG_ON
                } else {
                    FLAG_OFF
                }
            } else {
                f0.flag[a][b]
            },
        Strategy::Noble => exists|l: Seq<(int, int)>|
            #[trigger] top_list(g, plan, l, g.width as int, 0) && forall|a: int, b: int|
                in_array(a, b) ==> #[trigger] f1.flag[a][b] == if passable(g, a, b) {
                    if l.contains((a, b)) && plan.score[a][b] > 0 {
                        FLAG_ON
                    } else {
                        FLAG_OFF
                    }
                } else {
                    f0.flag[a][b]
                },
        _ => f1 == f0,
    }
}

/// King `k` moves its flags according to its strategy and to `plan`, the
/// decisions that its scoring of the map took (Midas and idle kings place no flags).
pub fn place_flags(k: &King, g: &Grid, fg: &mut FlagGrid, plan: &FlagPlan)
    requires
        dims_ok(g.width as int, g.height as int),
        flag_grid_wf(old(fg)),
        calls_at_most(old(fg), CALL_CAP as int),
    ensures
        flags_consistent(g, old(fg)) ==> flags_consistent(g, final(fg)),
        flag_grid_wf(final(fg)),
        final(fg).width == old(fg).width,
        final(fg).height == old(fg).height,
        calls_at_most(final(fg), scan_cap()),
        flags_placed(k, g, old(fg), final(fg), plan),
{
    match k.strategy {
        Strategy::AggrGreedy => action_aggr_greedy(k, g, fg, plan),
        Strategy::OneGreedy => action_one_greedy(k, g, fg, plan),
        Strategy::PersistentGreedy => action_persistent_greedy(k, g, fg, plan),
        Strategy::Opportunist => action_opportunist(k, g, fg, plan),
        Strategy::Noble => action_noble(k, g, fg, plan),
        Strategy::Midas => {
            proof {
                assert forall|a: int, b: int| in_array(a, b) implies 0 <= #[trigger] fg.call[a][b] <= scan_cap() by {}
            }
        },
        Strategy::Idle => {
            proof {
                assert forall|a: int, b: int| in_array(a, b) implies 0 <= #[trigger] fg.call[a][b] <= scan_cap() by {}
            }
        },
    }
}

} // verus!
